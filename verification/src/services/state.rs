//! The in-process backend's state: objects by key, pools by device.
use std::collections::VecDeque;
use std::sync::Arc;

use vstd::prelude::*;

use crate::error;
use crate::error::{Error, ErrorKind, ErrorView};
use crate::index::Index;
use crate::region;
use crate::region::HostMemory;
use crate::services::accounting;
use crate::services::evict;
use crate::services::model;
use crate::services::model::{DataView, Entry, ObjectView, PoolView, ReplicaView, StateView};
use crate::services::order;
use crate::services::placing;
use crate::services::removing;
use crate::text;
use crate::text::decimal_string;
use crate::types;
use crate::types::{Device, Key, ObjectSpec, Placement, PlacementView, Retention, Tier};

verus! {

pub enum ReplicaData {
    Owned(Arc<Vec<u8>>),
    /// Segments of user memory, and the region that each of them lies in.
    External { segs: Vec<(u64, u64)>, regions: Vec<u64> },
}

impl View for ReplicaData {
    type V = DataView;

    open spec fn view(&self) -> DataView {
        match self {
            ReplicaData::Owned(b) => DataView::Owned(b@),
            ReplicaData::External { segs, regions } => DataView::External {
                segs: segs@,
                regions: regions@,
            },
        }
    }
}

/// The bytes `[offset, offset + len)` of a list of segments.
fn read_segments(mem: &HostMemory, segs: &Vec<(u64, u64)>, offset: u64, len: u64) -> (r: Vec<u8>)
    requires
        region::segs_mapped(mem@, segs@),
        offset + len <= region::total_len(segs@),
        region::total_len(segs@) <= u64::MAX,
    ensures
        r@ == region::gathered(mem@, segs@).subrange(offset as int, offset + len),
{
    let mut out: Vec<u8> = Vec::new();
    let mut skip: u64 = offset;
    let mut want: u64 = len;
    let mut i: usize = 0;
    assert(segs@.take(0) =~= Seq::empty());
    proof {
        region::lemma_gathered_len(mem@, segs@);
    }
    while i < segs.len() && want > 0
        invariant
            i <= segs@.len(),
            region::segs_mapped(mem@, segs@),
            offset + len <= region::total_len(segs@) <= u64::MAX,
            want <= len,
            skip <= offset,
            ({
                let done = region::total_len(segs@.take(i as int));
                if done <= offset {
                    &&& skip == offset - done
                    &&& want == len
                    &&& out@.len() == 0
                } else if want > 0 {
                    &&& skip == 0
                    &&& done == offset + (len - want)
                    &&& out@ == region::gathered(mem@, segs@.take(i as int)).subrange(
                        offset as int,
                        done as int,
                    )
                } else {
                    &&& done >= offset + len
                    &&& out@ == region::gathered(mem@, segs@.take(i as int)).subrange(
                        offset as int,
                        offset + len,
                    )
                }
            }),
        decreases segs@.len() - i,
    {
        let addr: u64 = segs[i].0;
        let seg_len: u64 = segs[i].1;
        let ghost before = region::gathered(mem@, segs@.take(i as int));
        let ghost done = region::total_len(segs@.take(i as int));
        proof {
            assert(segs@.take(i + 1).drop_last() =~= segs@.take(i as int));
            region::lemma_gathered_len(mem@, segs@.take(i as int));
            region::lemma_total_len_grows(segs@, i + 1);
            assert(range_mapped_at(mem@, segs@, i as int));
        }
        let ghost part = region::range_bytes(mem@, addr, seg_len);
        let ghost after = region::gathered(mem@, segs@.take(i + 1));
        assert(after == before + part);
        if skip >= seg_len {
            skip = skip - seg_len;
            proof {
                if done > offset {
                    assert(after.subrange(offset as int, done as int) =~= out@);
                }
            }
        } else {
            let room: u64 = seg_len - skip;
            let n: u64 = if room < want {
                room
            } else {
                want
            };
            let mut piece = mem.read(addr + skip, n);
            let ghost old_out = out@;
            let ghost old_skip = skip;
            assert(piece@ =~= part.subrange(old_skip as int, old_skip + n));
            out.append(&mut piece);
            skip = 0;
            want = want - n;
            assert(out@ =~= after.subrange(offset as int, offset + (len - want)));
        }
        i = i + 1;
    }
    proof {
        let done = region::total_len(segs@.take(i as int));
        if i == segs@.len() {
            assert(segs@.take(i as int) =~= segs@);
        }
        region::lemma_gathered_take(mem@, segs@, i as int);
        region::lemma_total_len_grows(segs@, i as int);
        if want == 0 {
            assert(out@ =~= region::gathered(mem@, segs@).subrange(offset as int, offset + len));
        } else {
            assert(i == segs@.len());
            assert(false);
        }
    }
    out
}

spec fn range_mapped_at(mem: Map<u64, u8>, segs: Seq<(u64, u64)>, i: int) -> bool {
    region::range_mapped(mem, segs[i].0, segs[i].1)
}

impl ReplicaData {
    /// Copy `[offset, offset + len)` of this replica.
    pub fn read(&self, mem: &HostMemory, offset: u64, len: u64) -> (r: Vec<u8>)
        requires
            offset + len <= self@.len() <= u64::MAX,
            self@ is External ==> region::segs_mapped(mem@, self@->segs),
        ensures
            r@ == self@.bytes(mem@).subrange(offset as int, offset + len),
    {
        match self {
            ReplicaData::Owned(b) => {
                assert(b@.len() == b.len());
                vstd::slice::slice_to_vec(
                    vstd::slice::slice_subrange(
                        b.as_slice(),
                        offset as usize,
                        (offset + len) as usize,
                    ),
                )
            },
            ReplicaData::External { segs, .. } => read_segments(mem, segs, offset, len),
        }
    }
}

pub struct ReplicaEntry {
    pub device: Device,
    pub tier: Tier,
    pub misplaced: bool,
    pub data: ReplicaData,
}

impl View for ReplicaEntry {
    type V = ReplicaView;

    open spec fn view(&self) -> ReplicaView {
        ReplicaView {
            device: self.device,
            tier: self.tier,
            misplaced: self.misplaced,
            data: self.data@,
        }
    }
}

pub open spec fn replica_views(replicas: Seq<ReplicaEntry>) -> Seq<ReplicaView> {
    Seq::new(replicas.len(), |i: int| replicas[i]@)
}

pub struct Slot {
    pub replicas: Vec<ReplicaEntry>,
}

impl View for Slot {
    type V = Seq<ReplicaView>;

    open spec fn view(&self) -> Seq<ReplicaView> {
        replica_views(self.replicas@)
    }
}

pub open spec fn slot_views(slots: Seq<Slot>) -> Seq<Seq<ReplicaView>> {
    Seq::new(slots.len(), |i: int| slots[i]@)
}

pub struct Object {
    pub spec: ObjectSpec,
    pub slots: Vec<Slot>,
}

impl View for Object {
    type V = ObjectView;

    open spec fn view(&self) -> ObjectView {
        ObjectView { spec: self.spec@, slots: slot_views(self.slots@) }
    }
}

proof fn lemma_owned_len_take(replicas: Seq<ReplicaView>, d: Device, n: int)
    requires
        0 <= n <= replicas.len(),
    ensures
        model::owned_len(replicas.take(n), d) <= model::owned_len(replicas, d),
    decreases replicas.len() - n,
{
    if n < replicas.len() {
        lemma_owned_len_take(replicas, d, n + 1);
        assert(replicas.take(n + 1).drop_last() =~= replicas.take(n));
    } else {
        assert(replicas.take(n) =~= replicas);
    }
}

/// Whether a region is among some.
pub fn holds_id(regions: &Vec<u64>, id: u64) -> (r: bool)
    ensures
        r == regions@.contains(id),
{
    for i in 0..regions.len()
        invariant
            forall|j: int| 0 <= j < i ==> regions@[j] != id,
    {
        if regions[i] == id {
            assert(regions@[i as int] == id);
            return true;
        }
    }
    false
}

impl Slot {
    /// Give up the room on `d`; says how much it was.
    fn drop_owned(&mut self, d: Device) -> (r: u64)
        requires
            model::owned_len(old(self)@, d) <= u64::MAX,
        ensures
            final(self)@ == model::without_owned(old(self)@, d),
            r == model::owned_len(old(self)@, d),
    {
        let ghost all = self@;
        let ghost mut seen: int = 0;
        let mut i: usize = 0;
        let mut freed: u64 = 0;
        assert(all.take(0) =~= Seq::empty());
        assert(self@ =~= model::without_owned(all.take(0), d) + all.skip(0));
        while i < self.replicas.len()
            invariant
                0 <= seen <= all.len(),
                model::owned_len(all, d) <= u64::MAX,
                self@ == model::without_owned(all.take(seen), d) + all.skip(seen),
                i == model::without_owned(all.take(seen), d).len(),
                freed == model::owned_len(all.take(seen), d),
            decreases all.len() - seen,
        {
            let ghost before = self@;
            assert(self@.len() == self.replicas@.len());
            assert(before[i as int] == all[seen]);
            assert(all.take(seen + 1).drop_last() =~= all.take(seen));
            proof {
                lemma_owned_len_take(all, d, seen + 1);
            }
            let entry = &self.replicas[i];
            assert(entry@ == all[seen]);
            let mut gone: Option<u64> = None;
            if entry.device == d {
                if let ReplicaData::Owned(b) = &entry.data {
                    assert(b@.len() == b.len());
                    gone = Some(b.len() as u64);
                }
            }
            if let Some(n) = gone {
                freed = freed + n;
                self.replicas.remove(i);
                assert(self@ =~= before.remove(i as int));
                assert(self@ =~= model::without_owned(all.take(seen + 1), d) + all.skip(seen + 1));
            } else {
                i = i + 1;
                assert(self@ =~= model::without_owned(all.take(seen + 1), d) + all.skip(seen + 1));
            }
            proof {
                seen = seen + 1;
            }
        }
        assert(seen == all.len());
        assert(all.take(seen) =~= all);
        assert(self@ =~= model::without_owned(all, d));
        freed
    }

    /// Drop the replicas that lie in a region.
    fn drop_region(&mut self, id: u64)
        ensures
            final(self)@ == model::without_region(old(self)@, id),
    {
        let ghost all = self@;
        let ghost mut seen: int = 0;
        let mut i: usize = 0;
        assert(all.take(0) =~= Seq::empty());
        assert(self@ =~= model::without_region(all.take(0), id) + all.skip(0));
        while i < self.replicas.len()
            invariant
                0 <= seen <= all.len(),
                self@ == model::without_region(all.take(seen), id) + all.skip(seen),
                i == model::without_region(all.take(seen), id).len(),
            decreases all.len() - seen,
        {
            let ghost before = self@;
            assert(self@.len() == self.replicas@.len());
            assert(before[i as int] == all[seen]);
            assert(all.take(seen + 1).drop_last() =~= all.take(seen));
            let entry = &self.replicas[i];
            assert(entry@ == all[seen]);
            let mut gone = false;
            if let ReplicaData::External { regions, .. } = &entry.data {
                gone = holds_id(regions, id);
            }
            if gone {
                self.replicas.remove(i);
                assert(self@ =~= before.remove(i as int));
                assert(self@ =~= model::without_region(all.take(seen + 1), id) + all.skip(seen + 1));
            } else {
                i = i + 1;
                assert(self@ =~= model::without_region(all.take(seen + 1), id) + all.skip(seen + 1));
            }
            proof {
                seen = seen + 1;
            }
        }
        assert(all.take(seen) =~= all);
        assert(self@ =~= model::without_region(all, id));
    }
}

impl Object {
    /// Give up the room that one slot takes on `d`; says how much it was.
    fn drop_owned(&mut self, slot: usize, d: Device) -> (r: u64)
        requires
            slot < old(self)@.slots.len(),
            model::owned_len(old(self)@.slots[slot as int], d) <= u64::MAX,
        ensures
            r == model::owned_len(old(self)@.slots[slot as int], d),
            final(self)@ == (ObjectView {
                slots: old(self)@.slots.update(
                    slot as int,
                    model::without_owned(old(self)@.slots[slot as int], d),
                ),
                ..old(self)@
            }),
    {
        let freed = self.slots[slot].drop_owned(d);
        assert(self@.slots =~= old(self)@.slots.update(
            slot as int,
            model::without_owned(old(self)@.slots[slot as int], d),
        ));
        freed
    }

    fn is_empty(&self) -> (r: bool)
        ensures
            r == model::all_empty(self@.slots),
    {
        for i in 0..self.slots.len()
            invariant
                forall|j: int| 0 <= j < i ==> (#[trigger] self@.slots[j]).len() == 0,
        {
            assert(self@.slots[i as int].len() == self.slots@[i as int].replicas@.len());
            if self.slots[i].replicas.len() > 0 {
                return false;
            }
        }
        true
    }

    fn drop_region(&mut self, id: u64)
        ensures
            final(self)@ == (ObjectView {
                slots: Seq::new(
                    old(self)@.slots.len(),
                    |i: int| model::without_region(old(self)@.slots[i], id),
                ),
                ..old(self)@
            }),
    {
        let n: usize = self.slots.len();
        for i in 0..n
            invariant
                self.spec == old(self).spec,
                n == self.slots@.len(),
                self.slots@.len() == old(self).slots@.len(),
                forall|j: int|
                    0 <= j < i ==> (#[trigger] self@.slots[j]) == model::without_region(
                        old(self)@.slots[j],
                        id,
                    ),
                forall|j: int|
                    i <= j < self.slots@.len() ==> #[trigger] self.slots@[j] == old(self).slots@[j],
        {
            let ghost before = self.slots@;
            let ghost before_view = self@;
            self.slots[i].drop_region(id);
            assert forall|j: int| 0 <= j < i + 1 implies (#[trigger] self@.slots[j])
                == model::without_region(old(self)@.slots[j], id) by {
                if j < i {
                    assert(self.slots@[j] == before[j]);
                    assert(before_view.slots[j] == model::without_region(old(self)@.slots[j], id));
                } else {
                    assert(before[j] == old(self).slots@[j]);
                }
            }
        }
        assert(self@.slots =~= Seq::new(
            old(self)@.slots.len(),
            |i: int| model::without_region(old(self)@.slots[i], id),
        ));
    }
}

pub struct Pool {
    pub device: Device,
    pub capacity: Option<u64>,
    pub used: u64,
    /// Insertion order of owned replicas, for eviction.
    pub fifo: VecDeque<(Key, usize)>,
}

pub open spec fn entry_views(fifo: Seq<(Key, usize)>) -> Seq<Entry> {
    Seq::new(fifo.len(), |i: int| (fifo[i].0@, fifo[i].1 as nat))
}

impl View for Pool {
    type V = PoolView;

    open spec fn view(&self) -> PoolView {
        PoolView {
            capacity: self.capacity,
            used: self.used as nat,
            fifo: entry_views(self.fifo@),
        }
    }
}

impl Pool {
    /// Drop the entries of objects that are not there.
    fn keep_entries(&mut self, objects: &Index<Object>)
        requires
            objects.wf(),
        ensures
            final(self).device == old(self).device,
            final(self)@ == (PoolView {
                fifo: model::entries_of(old(self)@.fifo, object_views(objects@)),
                ..old(self)@
            }),
    {
        let ghost all = self@.fifo;
        let ghost live = object_views(objects@);
        let n: usize = self.fifo.len();
        assert(all.take(0) =~= Seq::<Entry>::empty());
        assert(all.skip(0) + model::entries_of(all.take(0), live) =~= all);
        for i in 0..n
            invariant
                objects.wf(),
                live == object_views(objects@),
                n == all.len(),
                self.device == old(self).device,
                self.capacity == old(self).capacity,
                self.used == old(self).used,
                self@.fifo == all.skip(i as int) + model::entries_of(all.take(i as int), live),
        {
            let ghost before = self@.fifo;
            let ghost kept = model::entries_of(all.take(i as int), live);
            let ghost raw = self.fifo@;
            assert(before.len() == raw.len());
            let (key, slot) = self.fifo.pop_front().unwrap();
            let ghost e = (key@, slot as nat);
            assert(before[0] == e);
            assert(all[i as int] == e);
            assert(self@.fifo =~= before.drop_first());
            assert(all.take(i + 1).drop_last() =~= all.take(i as int));
            assert(all.take(i + 1).last() == e);
            if objects.find(&key).is_some() {
                assert(live.contains_key(key@));
                let ghost mid = self@.fifo;
                self.fifo.push_back((key, slot));
                assert(self@.fifo =~= mid.push(e));
                assert(model::entries_of(all.take(i + 1), live) == kept.push(e));
            } else {
                assert(!live.contains_key(key@));
                assert(model::entries_of(all.take(i + 1), live) == kept);
            }
            assert(self@.fifo =~= all.skip(i + 1) + model::entries_of(all.take(i + 1), live));
        }
        assert(all.take(n as int) =~= all);
        assert(self@.fifo =~= model::entries_of(all, live));
    }
}

/// What a list of pools says of each device.
pub open spec fn pool_map(pools: Seq<Pool>) -> Map<Device, PoolView> {
    Map::new(
        |d: Device| exists|i: int| 0 <= i < pools.len() && (#[trigger] pools[i]).device == d,
        |d: Device|
            pools[choose|i: int| 0 <= i < pools.len() && (#[trigger] pools[i]).device == d]@,
    )
}

pub open spec fn one_each(pools: Seq<Pool>) -> bool {
    forall|i: int, j: int|
        0 <= i < j < pools.len() ==> (#[trigger] pools[i]).device != (#[trigger] pools[j]).device
}

pub proof fn lemma_pool_at(pools: Seq<Pool>, i: int)
    requires
        one_each(pools),
        0 <= i < pools.len(),
    ensures
        pool_map(pools).contains_key(pools[i].device),
        pool_map(pools)[pools[i].device] == pools[i]@,
{
    let d = pools[i].device;
    let c = choose|c: int| 0 <= c < pools.len() && (#[trigger] pools[c]).device == d;
    assert(c == i);
}

/// Changing a pool changes the map at its device alone.
pub proof fn lemma_pool_update(pools: Seq<Pool>, i: int, p: Pool)
    requires
        one_each(pools),
        0 <= i < pools.len(),
        p.device == pools[i].device,
    ensures
        one_each(pools.update(i, p)),
        pool_map(pools.update(i, p)) == pool_map(pools).insert(p.device, p@),
{
    let after = pools.update(i, p);
    assert forall|d: Device| #[trigger] pool_map(after).contains_key(d) <==> pool_map(
        pools,
    ).contains_key(d) by {
        if pool_map(after).contains_key(d) {
            let c = choose|c: int| 0 <= c < after.len() && (#[trigger] after[c]).device == d;
            assert(pools[c].device == d);
        }
        if pool_map(pools).contains_key(d) {
            let c = choose|c: int| 0 <= c < pools.len() && (#[trigger] pools[c]).device == d;
            assert(after[c].device == d);
        }
    }
    lemma_pool_at(pools, i);
    assert forall|d: Device| #[trigger] pool_map(after).contains_key(d) implies pool_map(after)[d]
        == pool_map(pools).insert(p.device, p@)[d] by {
        let c = choose|c: int| 0 <= c < after.len() && (#[trigger] after[c]).device == d;
        lemma_pool_at(after, c);
        lemma_pool_at(pools, c);
    }
    assert(pool_map(after) =~= pool_map(pools).insert(p.device, p@));
}

pub open spec fn object_views(objects: Map<Seq<u8>, Object>) -> Map<Seq<u8>, ObjectView> {
    objects.map_values(|o: Object| o@)
}

pub struct State {
    pub objects: Index<Object>,
    pub pools: Vec<Pool>,
}

impl View for State {
    type V = StateView;

    open spec fn view(&self) -> StateView {
        StateView { objects: object_views(self.objects@), pools: pool_map(self.pools@) }
    }
}

impl State {
    pub open spec fn wf(&self) -> bool {
        &&& self.objects.wf()
        &&& one_each(self.pools@)
    }

    pub fn find_pool(&self, d: Device) -> (r: Option<usize>)
        requires
            self.wf(),
        ensures
            match r {
                Some(i) => i < self.pools@.len() && self.pools@[i as int].device == d
                    && self@.pools.contains_key(d) && self@.pools[d] == self.pools@[i as int]@,
                None => !self@.pools.contains_key(d),
            },
    {
        for i in 0..self.pools.len()
            invariant
                self.wf(),
                forall|j: int| 0 <= j < i ==> (#[trigger] self.pools@[j]).device != d,
        {
            if self.pools[i].device == d {
                proof {
                    lemma_pool_at(self.pools@, i as int);
                }
                return Some(i);
            }
        }
        None
    }

    /// Serve one more device, or give a device that is served another limit. Its
    /// pool is empty.
    pub fn add_pool(&mut self, device: Device, capacity: Option<u64>)
        requires
            old(self).wf(),
        ensures
            final(self).wf(),
            final(self).objects == old(self).objects,
            final(self)@.pools == old(self)@.pools.insert(
                device,
                PoolView { capacity, used: 0, fifo: Seq::empty() },
            ),
    {
        let pool = Pool { device, capacity, used: 0, fifo: VecDeque::new() };
        assert(pool@.fifo =~= Seq::empty());
        let ghost pools0 = self.pools@;
        match self.find_pool(device) {
            Some(p) => {
                self.pools.set(p, pool);
                proof {
                    lemma_pool_update(pools0, p as int, pool);
                }
            },
            None => {
                self.pools.push(pool);
                proof {
                    let after = self.pools@;
                    assert(after == pools0.push(pool));
                    assert forall|i: int, j: int| 0 <= i < j < after.len() implies (
                    #[trigger] after[i]).device != (#[trigger] after[j]).device by {
                        if j == pools0.len() {
                            assert(pool_map(pools0).contains_key(device) || pools0[i].device
                                != device);
                        }
                    }
                    assert forall|d: Device| #[trigger]
                        pool_map(after).contains_key(d) <==> d == device || pool_map(
                            pools0,
                        ).contains_key(d) by {
                        if pool_map(after).contains_key(d) {
                            let c = choose|c: int|
                                0 <= c < after.len() && (#[trigger] after[c]).device == d;
                            if c < pools0.len() {
                                assert(pools0[c].device == d);
                            }
                        }
                        if pool_map(pools0).contains_key(d) {
                            let c = choose|c: int|
                                0 <= c < pools0.len() && (#[trigger] pools0[c]).device == d;
                            assert(after[c].device == d);
                        }
                        assert(after[pools0.len() as int].device == device);
                    }
                    assert forall|d: Device| #[trigger]
                        pool_map(after).contains_key(d) implies pool_map(after)[d] == pool_map(
                        pools0,
                    ).insert(device, pool@)[d] by {
                        let c = choose|c: int|
                            0 <= c < after.len() && (#[trigger] after[c]).device == d;
                        lemma_pool_at(after, c);
                        if c < pools0.len() {
                            lemma_pool_at(pools0, c);
                        }
                    }
                    assert(pool_map(after) =~= pool_map(pools0).insert(device, pool@));
                }
            },
        }
    }

    /// Whether an entry stays where room is made for `protect`.
    fn is_spared(&self, key: &Key, slot: usize, protect: &Key) -> (r: bool)
        requires
            self.wf(),
        ensures
            r == self@.spared((key@, slot as nat), protect@),
    {
        if key.same(protect) {
            return true;
        }
        match self.objects.find(key) {
            Some(i) => {
                let obj = self.objects.at(i);
                assert(self@.objects[key@] == obj@);
                obj.spec.retention != Retention::Cache || slot >= obj.slots.len()
            },
            None => true,
        }
    }

    /// Evict one slot from the pool at `p`.
    fn evict(&mut self, p: usize, key: &Key, slot: usize)
        requires
            old(self).wf(),
            old(self)@.inv(),
            p < old(self).pools@.len(),
            old(self)@.evictable((key@, slot as nat)),
        ensures
            final(self).wf(),
            final(self)@ == old(self)@.evicted(
                old(self).pools@[p as int].device,
                (key@, slot as nat),
            ),
            final(self).pools@.len() == old(self).pools@.len(),
            final(self).pools@[p as int].device == old(self).pools@[p as int].device,
    {
        let d = self.pools[p].device;
        let ghost s = self@;
        let ghost entry = (key@, slot as nat);
        proof {
            lemma_pool_at(self.pools@, p as int);
        }
        let i = match self.objects.find(key) {
            Some(i) => i,
            None => return,
        };
        proof {
            accounting::lemma_held_remove(s.objects, d, key@);
            accounting::lemma_slot_within(s.objects[key@].slots, slot as int, d);
            assert(s.objects[key@] == self.objects@[key@]@);
        }
        let ghost m0 = self.objects@;
        let freed = self.objects.at_mut(i).drop_owned(slot, d);
        let ghost after = self.objects@[key@];
        assert(object_views(self.objects@) =~= s.objects.insert(key@, after@));
        let ghost pools0 = self.pools@;
        self.pools[p].used = self.pools[p].used - freed;
        proof {
            lemma_pool_update(pools0, p as int, self.pools@[p as int]);
            assert(self.pools@ =~= pools0.update(p as int, self.pools@[p as int]));
            assert(self.pools@[p as int]@ == (PoolView {
                used: (s.pools[d].used - freed) as nat,
                ..s.pools[d]
            }));
        }
        if self.objects.at(i).is_empty() {
            let _ = self.objects.remove_at(i);
            assert(object_views(self.objects@) =~= s.objects.remove(key@));
        }
        assert(self@ =~= s.evicted(d, entry));
    }

    /// Make room for `need` bytes on `device` by evicting `Cache` replicas in
    /// FIFO order, never touching `protect`. Returns false if impossible.
    pub fn make_room(&mut self, device: Device, need: u64, protect: &Key) -> (r: bool)
        requires
            old(self).wf(),
            old(self)@.inv(),
            old(self)@.pools.contains_key(device),
            old(self)@.pools[device].used + need <= u64::MAX,
        ensures
            final(self).wf(),
            (final(self)@, r) == old(self)@.make_room(device, need as nat, protect@),
    {
        let p = match self.find_pool(device) {
            Some(p) => p,
            None => return false,
        };
        let cap = match self.pools[p].capacity {
            Some(cap) => cap,
            None => return true,
        };
        if need > cap {
            return false;
        }
        let ghost s = self@;
        let ghost goal = s.drained(device, need as nat, cap, protect@, Seq::empty());
        let mut aside: Vec<(Key, usize)> = Vec::new();
        assert(entry_views(aside@) =~= Seq::empty());
        while self.pools[p].used + need > cap && self.pools[p].fifo.len() > 0
            invariant
                self.wf(),
                self@.inv(),
                p < self.pools@.len(),
                self.pools@[p as int].device == device,
                self@.pools.contains_key(device),
                self@.pools[device] == self.pools@[p as int]@,
                self@.pools[device].used + need <= u64::MAX,
                self@.drained(device, need as nat, cap, protect@, entry_views(aside@)) == goal,
            decreases self.pools@[p as int].fifo@.len(),
        {
            let ghost t = self@;
            let ghost pools0 = self.pools@;
            let ghost pool0 = self.pools@[p as int];
            let ghost aside0 = entry_views(aside@);
            let (key, slot) = self.pools[p].fifo.pop_front().unwrap();
            let ghost entry = (key@, slot as nat);
            let ghost rest = t.with_pool(
                device,
                PoolView { fifo: t.pools[device].fifo.drop_first(), ..t.pools[device] },
            );
            proof {
                lemma_pool_update(pools0, p as int, self.pools@[p as int]);
                assert(self.pools@ =~= pools0.update(p as int, self.pools@[p as int]));
                assert(entry_views(self.pools@[p as int].fifo@) =~= entry_views(
                    pool0.fifo@,
                ).drop_first());
                assert(self.pools@[p as int]@ == rest.pools[device]);
                assert(self@ =~= rest);
                assert(t.pools[device].fifo[0] == entry);
                lemma_rest(t, device);
            }
            assert(rest.spared(entry, protect@) == t.spared(entry, protect@));
            if self.is_spared(&key, slot, protect) {
                aside.push((key, slot));
                assert(entry_views(aside@) =~= aside0.push(entry));
                proof {
                    lemma_pool_at(self.pools@, p as int);
                }
            } else {
                proof {
                    evict::lemma_evicted(rest, device, entry, protect@);
                }
                self.evict(p, &key, slot);
                proof {
                    lemma_pool_at(self.pools@, p as int);
                }
            }
        }
        let ghost t = self@;
        let ghost tail = self@.pools[device].fifo;
        let ghost all = entry_views(aside@) + tail;
        assert(all.skip(aside@.len() as int) =~= tail);
        assert(entry_views(aside@) =~= all.take(aside@.len() as int));
        assert(self@ =~= t.with_pool(device, PoolView { fifo: tail, ..t.pools[device] }));
        while aside.len() > 0
            invariant
                self.wf(),
                p < self.pools@.len(),
                self.pools@[p as int].device == device,
                t.pools.contains_key(device),
                self@ == t.with_pool(
                    device,
                    PoolView {
                        fifo: all.skip(aside@.len() as int),
                        ..t.pools[device]
                    },
                ),
                self@.pools[device] == self.pools@[p as int]@,
                all.len() >= aside@.len(),
                entry_views(aside@) == all.take(aside@.len() as int),
            decreases aside@.len(),
        {
            let ghost pools0 = self.pools@;
            let ghost pool0 = self.pools@[p as int];
            let ghost a0 = aside@;
            let (key, slot) = aside.pop().unwrap();
            let ghost entry = (key@, slot as nat);
            assert(all[a0.len() - 1] == entry) by {
                assert(entry_views(a0)[a0.len() - 1] == entry);
            }
            assert(entry_views(aside@) =~= all.take(aside@.len() as int)) by {
                assert(entry_views(aside@) =~= entry_views(a0).drop_last());
            }
            self.pools[p].fifo.push_front((key, slot));
            proof {
                lemma_pool_update(pools0, p as int, self.pools@[p as int]);
                assert(self.pools@ =~= pools0.update(p as int, self.pools@[p as int]));
                lemma_pool_at(self.pools@, p as int);
                assert(entry_views(self.pools@[p as int].fifo@) =~= seq![entry] + entry_views(
                    pool0.fifo@,
                ));
                assert(seq![entry] + all.skip(a0.len() as int) =~= all.skip(a0.len() - 1));
                assert(self@.pools =~= t.with_pool(
                    device,
                    PoolView { fifo: all.skip(aside@.len() as int), ..t.pools[device] },
                ).pools);
            }
        }
        assert(all.skip(0) =~= all);
        assert(self@ == goal);
        self.pools[p].used + need <= cap
    }

    /// Book one slot to a pool.
    fn charge(&mut self, device: Device, key: &Key, slot: usize, len: u64)
        requires
            old(self).wf(),
            old(self)@.pools.contains_key(device),
            old(self)@.pools[device].used + len <= u64::MAX,
        ensures
            final(self).wf(),
            final(self).objects == old(self).objects,
            final(self)@ == old(self)@.charged(device, key@, slot as nat, len),
    {
        let p = match self.find_pool(device) {
            Some(p) => p,
            None => return,
        };
        let ghost pools0 = self.pools@;
        let ghost pool0 = self.pools@[p as int];
        self.pools[p].used = self.pools[p].used + len;
        let last = self.pools[p].fifo.len();
        let listed = last > 0 && {
            let (k, i) = &self.pools[p].fifo[last - 1];
            *i == slot && k.same(key)
        };
        if !listed {
            self.pools[p].fifo.push_back((key.clone(), slot));
        }
        proof {
            lemma_pool_update(pools0, p as int, self.pools@[p as int]);
            assert(self.pools@ =~= pools0.update(p as int, self.pools@[p as int]));
            assert(entry_views(self.pools@[p as int].fifo@) =~= model::appended(
                entry_views(pool0.fifo@),
                (key@, slot as nat),
            ));
            assert(self@ =~= old(self)@.charged(device, key@, slot as nat, len));
        }
    }
}

/// The devices to try for a slot, in order, and whether landing there counts
/// as misplaced.
fn targets_for(placement: &Placement, order: &Vec<Device>) -> (r: Vec<(Device, bool)>)
    ensures
        r@ == model::candidates(placement@, order@),
{
    let mut out: Vec<(Device, bool)> = Vec::new();
    match placement {
        Placement::Strict(d) => {
            out.push((*d, false));
        },
        Placement::Prefer(d) => {
            out.push((*d, false));
            for i in 0..order.len()
                invariant
                    out@ == seq![(*d, false)] + model::fallbacks(order@, *d, i as nat),
            {
                if order[i] != *d {
                    out.push((order[i], true));
                }
                assert(out@ =~= seq![(*d, false)] + model::fallbacks(order@, *d, (i + 1) as nat));
            }
        },
        Placement::Each(ds) => {
            for i in 0..ds.len()
                invariant
                    out@ == model::candidates(placement@, order@).take(i as int),
                    placement@ == PlacementView::Each(ds@),
            {
                out.push((ds[i], false));
                assert(out@ =~= model::candidates(placement@, order@).take(i + 1));
            }
        },
        Placement::Anywhere => {
            for i in 0..order.len()
                invariant
                    out@ == model::candidates(placement@, order@).take(i as int),
                    placement@ is Anywhere,
            {
                out.push((order[i], false));
                assert(out@ =~= model::candidates(placement@, order@).take(i + 1));
            }
        },
    }
    assert(out@ =~= model::candidates(placement@, order@));
    out
}

pub open spec fn error_view(e: Option<Error>) -> Option<ErrorView> {
    match e {
        Some(e) => Some(e@),
        None => None,
    }
}

/// A search that is done stays as it is.
proof fn lemma_search_done(
    s: StateView,
    cands: Seq<(Device, bool)>,
    each: bool,
    len: u64,
    key: Seq<u8>,
    n: nat,
    m: nat,
)
    requires
        n <= m,
        s.searched(cands, each, len, key, n).done,
    ensures
        s.searched(cands, each, len, key, m) == s.searched(cands, each, len, key, n),
    decreases m,
{
    if n < m {
        lemma_search_done(s, cands, each, len, key, n, (m - 1) as nat);
    }
}

/// The most copies that a search can ask room for.
spec fn most(cands: Seq<(Device, bool)>, each: bool) -> nat {
    if each {
        cands.len()
    } else {
        1
    }
}

proof fn lemma_aimed_within(targets: Seq<(Device, bool)>, d: Device)
    ensures
        model::aimed(targets, d) <= targets.len(),
    decreases targets.len(),
{
    if targets.len() > 0 {
        lemma_aimed_within(targets.drop_last(), d);
    }
}

/// How many targets are on `d`.
fn aimed_at(targets: &Vec<(Device, bool)>, d: Device) -> (r: u64)
    ensures
        r == model::aimed(targets@, d),
        r <= targets@.len(),
{
    let mut n: u64 = 0;
    assert(targets@.take(0) =~= Seq::empty());
    for i in 0..targets.len()
        invariant
            n <= i,
            n == model::aimed(targets@.take(i as int), d),
    {
        assert(targets@.take(i + 1).drop_last() =~= targets@.take(i as int));
        if targets[i].0 == d {
            n = n + 1;
        }
    }
    assert(targets@.take(targets@.len() as int) =~= targets@);
    n
}

impl State {
    /// Look for the devices that take a slot, making room where it is needed.
    fn search(&mut self, cands: &Vec<(Device, bool)>, each: bool, len: u64, key: &Key) -> (r: (
        Vec<(Device, bool)>,
        Option<Error>,
    ))
        requires
            old(self).wf(),
            old(self)@.inv(),
            old(self)@.objects.contains_key(key@),
            forall|d: Device| #[trigger]
                old(self)@.pools.contains_key(d) ==> old(self)@.pools[d].used + most(cands@, each)
                    * len as nat <= u64::MAX,
        ensures
            final(self).wf(),
            ({
                let s = old(self)@.searched(cands@, each, len, key@, cands@.len());
                &&& final(self)@ == s.state
                &&& r.0@ == s.targets
                &&& error_view(r.1) == s.error
            }),
    {
        let ghost s = self@;
        let mut targets: Vec<(Device, bool)> = Vec::new();
        let mut error: Option<Error> = None;
        let mut done = false;
        let mut i: usize = 0;
        while i < cands.len() && !done
            invariant
                i <= cands@.len(),
                self.wf(),
                s.inv(),
                s.objects.contains_key(key@),
                forall|d: Device| #[trigger]
                    s.pools.contains_key(d) ==> s.pools[d].used + most(cands@, each) * len as nat
                        <= u64::MAX,
                ({
                    let r = s.searched(cands@, each, len, key@, i as nat);
                    &&& self@ == r.state
                    &&& targets@ == r.targets
                    &&& error_view(error) == r.error
                    &&& done == r.done
                }),
            decreases cands@.len() - i,
        {
            let (d, misplaced) = cands[i];
            proof {
                placing::lemma_searched(s, cands@, each, len, key@, i as nat);
            }
            if self.find_pool(d).is_none() {
                error = Some(
                    Error::new(
                        ErrorKind::InvalidInput,
                        "device not served by this backend",
                    ).with_context("device", d.to_string()),
                );
                done = each;
            } else {
                assert(s.pools.contains_key(d));
                let copies: u64 = 1 + aimed_at(&targets, d);
                proof {
                    lemma_aimed_within(targets@, d);
                    let m = most(cands@, each);
                    assert(copies * len <= m * len) by (nonlinear_arith)
                        requires
                            copies <= m,
                    ;
                }
                if self.make_room(d, copies * len, key) {
                    targets.push((d, misplaced));
                    done = !each;
                } else {
                    error = Some(
                        Error::new(ErrorKind::NoSpace, "pool cannot fit slot").with_context(
                            "device",
                            d.to_string(),
                        ).with_context("len", decimal_string(len)),
                    );
                    done = each;
                }
            }
            i = i + 1;
        }
        proof {
            if done {
                lemma_search_done(s, cands@, each, len, key@, i as nat, cands@.len());
            }
        }
        (targets, error)
    }

    /// Give slot `i` a replica on each target.
    fn land(&mut self, key: &Key, i: usize, targets: &Vec<(Device, bool)>, bytes: Vec<u8>)
        requires
            old(self).wf(),
            old(self)@.objects.contains_key(key@),
            i < old(self)@.objects[key@].slots.len(),
        ensures
            final(self).wf(),
            final(self).pools == old(self).pools,
            final(self)@ == old(self)@.landed(key@, i as nat, targets@, bytes@),
    {
        let ghost s = self@;
        let at = match self.objects.find(key) {
            Some(at) => at,
            None => return,
        };
        assert(s.objects[key@] == self.objects@[key@]@);
        let obj = self.objects.at_mut(at);
        let ghost obj0 = *obj;
        let ghost slot0 = obj.slots@[i as int]@;
        let shared = Arc::new(bytes);
        for j in 0..targets.len()
            invariant
                i < obj.slots@.len(),
                shared@ == bytes@,
                obj.spec == obj0.spec,
                obj.slots@.len() == obj0.slots@.len(),
                forall|x: int|
                    0 <= x < obj.slots@.len() && x != i ==> #[trigger] obj.slots@[x]
                        == obj0.slots@[x],
                obj.slots@[i as int]@ == slot0 + model::copies(targets@.take(j as int), bytes@),
        {
            let ghost before = obj.slots@[i as int]@;
            obj.slots[i].replicas.push(
                ReplicaEntry {
                    device: targets[j].0,
                    tier: Tier::Dram,
                    misplaced: targets[j].1,
                    data: ReplicaData::Owned(shared.clone()),
                },
            );
            let ghost last = ReplicaView {
                device: targets@[j as int].0,
                tier: Tier::Dram,
                misplaced: targets@[j as int].1,
                data: DataView::Owned(bytes@),
            };
            assert(obj.slots@[i as int]@ =~= before.push(last));
            assert(model::copies(targets@.take(j + 1), bytes@) =~= model::copies(
                targets@.take(j as int),
                bytes@,
            ).push(last));
            assert(obj.slots@[i as int]@ =~= slot0 + model::copies(targets@.take(j + 1), bytes@));
        }
        assert(targets@.take(targets@.len() as int) =~= targets@);
        let ghost obj1 = *obj;
        assert(obj1@.slots =~= obj0@.slots.update(i as int, slot0 + model::copies(targets@, bytes@)));
        assert(object_views(self.objects@) =~= s.landed(
            key@,
            i as nat,
            targets@,
            bytes@,
        ).objects);
    }

    /// Place one empty slot.
    pub fn place(
        &mut self,
        order: &Vec<Device>,
        key: &Key,
        i: usize,
        placement: &Placement,
        bytes: Vec<u8>,
        len: u64,
    ) -> (r: Result<(), Error>)
        requires
            old(self).wf(),
            old(self)@.inv(),
            old(self)@.objects.contains_key(key@),
            i < old(self)@.objects[key@].slots.len(),
            old(self)@.objects[key@].slots[i as int].len() == 0,
            bytes@.len() == len,
            forall|d: Device| #[trigger]
                old(self)@.pools.contains_key(d) ==> old(self)@.pools[d].used + placing::width(placement@)
                    * len as nat <= u64::MAX,
        ensures
            final(self).wf(),
            (final(self)@, error::result_view(r)) == old(self)@.placed(
                order@,
                key@,
                i as nat,
                placement@,
                bytes@,
                len,
            ),
    {
        let ghost s = self@;
        let each = matches!(placement, Placement::Each(_));
        let cands = targets_for(placement, order);
        proof {
            placing::lemma_searched(s, cands@, each, len, key@, cands@.len());
        }
        proof {
            assert(most(cands@, each) == placing::width(placement@));
        }
        let (targets, error) = self.search(&cands, each, len, key);
        let ghost found = s.searched(cands@, each, len, key@, cands@.len());
        if targets.len() == 0 || (each && error.is_some()) {
            let e = match error {
                Some(e) => e,
                None => Error::new(ErrorKind::NoSpace, "no device available"),
            };
            return Err(e.with_context("slot", decimal_string(i as u64)));
        }
        self.land(key, i, &targets, bytes);
        let ghost m = self@;
        assert(m == found.state.landed(key@, i as nat, targets@, bytes@));
        assert forall|j: int| 0 <= j < targets@.len() implies m.pools.contains_key(
            (#[trigger] targets@[j]).0,
        ) by {
            assert(found.targets[j] == targets@[j]);
        }
        for j in 0..targets.len()
            invariant
                self.wf(),
                bytes@.len() == len,
                targets@.len() <= placing::width(placement@),
                forall|x: int|
                    0 <= x < targets@.len() ==> m.pools.contains_key((#[trigger] targets@[x]).0),
                forall|d: Device| #[trigger]
                    m.pools.contains_key(d) ==> m.pools[d].used + placing::width(placement@) * len as nat
                        <= u64::MAX,
                self@ == m.charged_all(targets@, key@, i as nat, len, j as nat),
        {
            let d = targets[j].0;
            assert(m.pools.contains_key(targets@[j as int].0));
            proof {
                placing::lemma_charged_all(m, targets@, key@, i as nat, len, bytes@, j as nat);
                placing::lemma_copies_len(targets@, bytes@, d, j as nat);
                let w = placing::width(placement@);
                assert(j * len + len <= w * len) by (nonlinear_arith)
                    requires
                        j + 1 <= w,
                ;
            }
            self.charge(d, key, i, len);
        }
        Ok(())
    }

    /// Make sure that there is an object for `key`.
    pub fn reserve(&mut self, key: &Key, spec: &ObjectSpec)
        requires
            old(self).wf(),
        ensures
            final(self).wf(),
            final(self)@ == old(self)@.reserved(key@, spec@),
    {
        if self.objects.find(key).is_none() {
            let mut slots: Vec<Slot> = Vec::new();
            for i in 0..spec.slots.len()
                invariant
                    slots@.len() == i,
                    forall|j: int| 0 <= j < i ==> (#[trigger] slots@[j])@.len() == 0,
            {
                let slot = Slot { replicas: Vec::new() };
                assert(slot@.len() == 0);
                slots.push(slot);
            }
            let ghost obj = Object { spec: *spec, slots };
            assert forall|j: int| 0 <= j < slots@.len() implies (#[trigger] obj@.slots[j])
                == Seq::<ReplicaView>::empty() by {
                assert(slots@[j]@ =~= Seq::<ReplicaView>::empty());
            }
            assert(obj@.slots =~= Seq::new(
                spec@.slots.len(),
                |i: int| Seq::<ReplicaView>::empty(),
            ));
            self.objects.insert(key.clone(), Object { spec: spec.clone(), slots });
            assert(self@.objects =~= old(self)@.reserved(key@, spec@).objects);
        }
    }

    /// Give back the room of an object that has been taken out.
    fn release(&mut self, obj: &Object, Ghost(s): Ghost<StateView>, Ghost(key): Ghost<Seq<u8>>)
        requires
            old(self).wf(),
            s.inv(),
            s.objects.contains_key(key),
            s.objects[key] == obj@,
            old(self)@ == (StateView { objects: s.objects.remove(key), ..s }),
        ensures
            final(self).wf(),
            final(self).objects == old(self).objects,
            final(self)@ == s.removed(key),
    {
        let n: usize = self.pools.len();
        for p in 0..n
            invariant
                self.objects == old(self).objects,
                n == self.pools@.len(),
                self.wf(),
                s.inv(),
                s.objects.contains_key(key),
                s.objects[key] == obj@,
                self@.objects == s.objects.remove(key),
                self@.pools.dom() == s.pools.dom(),
                forall|i: int|
                    0 <= i < p ==> s.pools.contains_key((#[trigger] self.pools@[i]).device)
                        && self.pools@[i]@ == s.removed(key).pools[self.pools@[i].device],
                forall|i: int|
                    p <= i < n ==> s.pools.contains_key((#[trigger] self.pools@[i]).device)
                        && self.pools@[i]@ == s.pools[self.pools@[i].device],
        {
            let d = self.pools[p].device;
            proof {
                assert(s.pools.contains_key(self.pools@[p as int].device));
                accounting::lemma_held_remove(s.objects, d, key);
            }
            let freed = obj.size_on(d);
            let ghost pools0 = self.pools@;
            self.pools[p].used = self.pools[p].used - freed;
            self.pools[p].keep_entries(&self.objects);
            proof {
                lemma_pool_update(pools0, p as int, self.pools@[p as int]);
                assert(self.pools@ =~= pools0.update(p as int, self.pools@[p as int]));
                assert(self@.pools.dom() =~= s.pools.dom());
                assert(self.pools@[p as int]@ == s.removed(key).pools[d]);
            }
        }
        proof {
            assert forall|d: Device| #[trigger] s.pools.contains_key(d) implies self@.pools[d]
                == s.removed(key).pools[d] by {
                assert(self@.pools.contains_key(d));
                let c = choose|c: int|
                    0 <= c < self.pools@.len() && (#[trigger] self.pools@[c]).device == d;
                lemma_pool_at(self.pools@, c);
            }
            assert(self@.pools =~= s.removed(key).pools);
        }
    }

    pub fn remove(&mut self, key: &Key)
        requires
            old(self).wf(),
            old(self)@.inv(),
        ensures
            final(self).wf(),
            final(self)@ == old(self)@.removed(key@),
    {
        let ghost s = self@;
        if let Some(at) = self.objects.find(key) {
            let obj = self.objects.remove_at(at);
            assert(self@.objects =~= s.objects.remove(key@));
            self.release(&obj, Ghost(s), Ghost(key@));
        }
    }

    /// Remove every object under `prefix`; says how many there were.
    pub fn remove_prefix(&mut self, prefix: &[u8]) -> (r: u64)
        requires
            old(self).wf(),
            old(self)@.inv(),
            old(self)@.queued(),
        ensures
            final(self).wf(),
            final(self)@ == old(self)@.removed_prefix(prefix@),
            r == old(self)@.under(prefix@).len(),
    {
        let ghost s = self@;
        let ghost keys = self.objects.keys();
        proof {
            self.objects.lemma_keys();
        }
        let (first, n) = self.objects.prefix_range(prefix);
        let ghost gone = keys.subrange(first as int, first + n);
        assert(keys.take(first as int) + keys.skip(first as int) =~= keys);
        assert(gone.take(0).to_set() =~= Set::empty());
        assert(s.objects.remove_keys(Set::empty()) =~= s.objects);
        proof {
            assert forall|d: Device| #[trigger] s.pools.contains_key(d) implies model::entries_of(
                s.pools[d].fifo,
                s.objects,
            ) == s.pools[d].fifo by {
                order::lemma_entries_live(s, d);
            }
        }
        for j in 0..n
            invariant
                self.wf(),
                self@.inv(),
                first + n <= keys.len(),
                gone == keys.subrange(first as int, first + n),
                forall|a: int, b: int|
                    0 <= a < b < keys.len() ==> #[trigger] keys[a] != #[trigger] keys[b],
                forall|a: int| 0 <= a < keys.len() ==> s.objects.contains_key(#[trigger] keys[a]),
                self.objects.keys() == keys.take(first as int) + keys.skip(first + j),
                self@.objects == s.objects.remove_keys(gone.take(j as int).to_set()),
                self@.pools.dom() == s.pools.dom(),
                forall|d: Device| #[trigger]
                    s.pools.contains_key(d) ==> self@.pools[d].capacity == s.pools[d].capacity
                        && self@.pools[d].fifo == model::entries_of(
                        s.pools[d].fifo,
                        self@.objects,
                    ),
        {
            let ghost t = self@;
            let ghost now = self.objects.keys();
            let ghost k = keys[first + j];
            assert(now[first as int] == k);
            proof {
                self.objects.lemma_keys();
            }
            assert(t.objects.contains_key(k));
            let obj = self.objects.remove_at(first);
            assert(self@.objects =~= t.objects.remove(k));
            self.release(&obj, Ghost(t), Ghost(k));
            proof {
                removing::lemma_removed(t, k);
                assert(now.remove(first as int) =~= keys.take(first as int) + keys.skip(
                    first + j + 1,
                ));
                assert(gone.take(j + 1) =~= gone.take(j as int).push(k));
                assert(gone.take(j + 1).to_set() =~= gone.take(j as int).to_set().insert(k)) by {
                    assert forall|x: Seq<u8>| #[trigger]
                        gone.take(j + 1).to_set().contains(x) <==> gone.take(
                            j as int,
                        ).to_set().insert(k).contains(x) by {
                        if gone.take(j as int).contains(x) {
                            let c = choose|c: int| 0 <= c < j && gone.take(j as int)[c] == x;
                            assert(gone.take(j + 1)[c] == x);
                        }
                        if x == k {
                            assert(gone.take(j + 1)[j as int] == k);
                        }
                    }
                }
                assert(self@.objects =~= s.objects.remove_keys(gone.take(j + 1).to_set()));
                assert forall|d: Device| #[trigger]
                    s.pools.contains_key(d) implies self@.pools[d].capacity == s.pools[d].capacity
                    && self@.pools[d].fifo == model::entries_of(
                    s.pools[d].fifo,
                    self@.objects,
                ) by {
                    assert(t.pools.contains_key(d));
                    order::lemma_entries_twice(s.pools[d].fifo, t.objects, self@.objects);
                }
            }
        }
        proof {
            assert(gone.take(n as int) =~= gone);
            assert(gone.to_set() =~= s.under(prefix@)) by {
                assert forall|k: Seq<u8>| #[trigger]
                    gone.to_set().contains(k) <==> s.under(prefix@).contains(k) by {
                    if gone.contains(k) {
                        let c = choose|c: int| 0 <= c < gone.len() && gone[c] == k;
                        assert(keys[first + c] == k);
                    }
                    if s.under(prefix@).contains(k) {
                        assert(old(self).objects@.contains_key(k));
                        let c = choose|c: int| 0 <= c < keys.len() && #[trigger] keys[c] == k;
                        assert(gone[c - first] == k);
                    }
                }
            }
            assert(gone.no_duplicates());
            gone.unique_seq_to_set();
            assert(self@.pools =~= s.removed_prefix(prefix@).pools);
        }
        n as u64
    }

    /// Drop every replica that lies in a region.
    pub fn retire_region(&mut self, id: u64)
        requires
            old(self).wf(),
        ensures
            final(self).wf(),
            final(self)@ == old(self)@.retired(id),
    {
        let ghost s = self@;
        let ghost t = s.retired(id);
        let ghost keys = self.objects.keys();
        proof {
            self.objects.lemma_keys();
        }
        let n: usize = self.objects.len();
        for i in 0..n
            invariant
                n == keys.len(),
                self.objects.wf(),
                self.objects.keys() == keys,
                self.pools == old(self).pools,
                s == old(self)@,
                t == s.retired(id),
                self@.objects.dom() == s.objects.dom(),
                forall|a: int, b: int|
                    0 <= a < b < keys.len() ==> #[trigger] keys[a] != #[trigger] keys[b],
                forall|j: int| 0 <= j < n ==> s.objects.contains_key(#[trigger] keys[j]),
                forall|j: int|
                    0 <= j < i ==> self@.objects[#[trigger] keys[j]] == t.objects[keys[j]],
                forall|j: int|
                    i <= j < n ==> self@.objects[#[trigger] keys[j]] == s.objects[keys[j]],
        {
            let ghost before = self@.objects;
            let ghost m0 = self.objects@;
            let ghost k = keys[i as int];
            assert(s.objects.contains_key(k));
            assert(before[k] == s.objects[k]);
            self.objects.at_mut(i).drop_region(id);
            assert(self@.objects =~= before.insert(k, t.objects[k])) by {
                assert(m0[k]@ == before[k]);
                assert(self.objects@[k]@ == t.objects[k]);
            }
            assert(self@.objects.dom() =~= s.objects.dom());
        }
        proof {
            assert forall|k: Seq<u8>| #[trigger] s.objects.contains_key(k) implies self@.objects[k]
                == t.objects[k] by {
                assert(old(self).objects@.contains_key(k));
                let j = choose|j: int| 0 <= j < keys.len() && #[trigger] keys[j] == k;
                assert(keys[j] == k);
            }
            assert(self@.objects =~= t.objects);
        }
    }
}

proof fn lemma_slots_take(slots: Seq<Seq<ReplicaView>>, d: Device, n: int)
    requires
        0 <= n <= slots.len(),
    ensures
        model::slots_len(slots.take(n), d) <= model::slots_len(slots, d),
    decreases slots.len() - n,
{
    if n < slots.len() {
        lemma_slots_take(slots, d, n + 1);
        assert(slots.take(n + 1).drop_last() =~= slots.take(n));
    } else {
        assert(slots.take(n) =~= slots);
    }
}

impl Slot {
    /// The bytes that the slot takes up on `d`.
    fn size_on(&self, d: Device) -> (r: u64)
        requires
            model::owned_len(self@, d) <= u64::MAX,
        ensures
            r == model::owned_len(self@, d),
    {
        let mut n: u64 = 0;
        assert(self@.take(0) =~= Seq::empty());
        for i in 0..self.replicas.len()
            invariant
                model::owned_len(self@, d) <= u64::MAX,
                n == model::owned_len(self@.take(i as int), d),
        {
            proof {
                lemma_owned_len_take(self@, d, i + 1);
                assert(self@.take(i + 1).drop_last() =~= self@.take(i as int));
                assert(self@[i as int] == self.replicas@[i as int]@);
            }
            let entry = &self.replicas[i];
            if entry.device == d {
                if let ReplicaData::Owned(b) = &entry.data {
                    assert(b@.len() == b.len());
                    n = n + b.len() as u64;
                }
            }
        }
        assert(self@.take(self@.len() as int) =~= self@);
        n
    }
}

impl Object {
    /// The bytes that the object takes up on `d`.
    fn size_on(&self, d: Device) -> (r: u64)
        requires
            model::slots_len(self@.slots, d) <= u64::MAX,
        ensures
            r == model::slots_len(self@.slots, d),
    {
        let ghost slots = self@.slots;
        let mut n: u64 = 0;
        assert(slots.take(0) =~= Seq::empty());
        for i in 0..self.slots.len()
            invariant
                slots == self@.slots,
                model::slots_len(slots, d) <= u64::MAX,
                n == model::slots_len(slots.take(i as int), d),
        {
            proof {
                lemma_slots_take(slots, d, i + 1);
                assert(slots.take(i + 1).drop_last() =~= slots.take(i as int));
                assert(slots[i as int] == self.slots@[i as int]@);
            }
            n = n + self.slots[i].size_on(d);
        }
        assert(slots.take(slots.len() as int) =~= slots);
        n
    }
}

proof fn lemma_rest(t: StateView, d: Device)
    requires
        t.inv(),
        t.pools.contains_key(d),
    ensures
        t.with_pool(d, PoolView { fifo: t.pools[d].fifo.drop_first(), ..t.pools[d] }).inv(),
{
    let r = t.with_pool(d, PoolView { fifo: t.pools[d].fifo.drop_first(), ..t.pools[d] });
    assert(r.pools.dom() =~= t.pools.dom());
    assert forall|e: Device| #[trigger] r.pools.contains_key(e) implies r.pools[e].used == model::held(
        r.objects,
        e,
    ) by {
        assert(t.pools.contains_key(e));
    }
}

} // verus!
