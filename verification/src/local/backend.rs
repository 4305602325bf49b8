//! The single-node backend itself. An operation that moves bytes comes in two
//! halves: the first decides what is to be copied where, the second is told how
//! the copy went.
use std::collections::VecDeque;

use vstd::prelude::*;

use crate::copy;
use crate::copy::{iov_segs, pick_engine, zip_copy, Engine, Piece, Seg};
use crate::error;
use crate::error::{Error, ErrorKind, ErrorView};
use crate::index::Index;
use crate::local::ledger;
use crate::local::ledger::{
    Keeper, LocalData, LocalObject, LocalPool, LocalReplica, LocalSlot, LocalState, RunView, Spot,
};
use crate::local::queue;
use crate::local::safety;
use crate::local::steps;
use crate::local::tables;
use crate::local::tables::{Backing, Buffer, DramPool, ObjectRow, ReplicaRow, Run, SlotRow, Tables};
use crate::local::writes;
use crate::ops;
use crate::ops::{OpGet, OpGetView, OpPublish, OpPut, RpPut};
use crate::pinned;
use crate::pinned::{PinnedPool, PinnedView};
use crate::region;
use crate::region::{Iov, IovView, MemoryRegion, RegionIds, RegionView};
use crate::services::memory;
use crate::services::model;
use crate::services::model::Entry;
use crate::services::state;
use crate::text;
use crate::text::decimal_string;
use crate::topology;
use crate::topology::{Topology, TopologyView};
use crate::types;
use crate::types::{
    tier_rank, AccessInfo, AccessInfoView, Capability, Device, Key, Location, NodeId, ObjectInfo,
    Placement, Replica, SlotInfo, Tier,
};

verus! {

pub struct Local {
    info: AccessInfo,
    topo: Topology,
    gpus: Vec<u16>,
    tables: Tables,
    loans: Vec<Option<Vec<u64>>>,
}

#[verifier::ext_equal]
pub struct LocalView {
    pub info: AccessInfoView,
    pub topo: TopologyView,
    /// The GPUs that copies may use.
    pub gpus: Seq<u16>,
    /// The NUMA nodes that have a pool, ascending.
    pub order: Seq<u16>,
    pub state: LocalState,
    /// The reads of lent memory that are in flight, by their number: the regions
    /// that each reads. `None` is a number to be used again.
    pub loans: Seq<Option<Seq<u64>>>,
}

pub open spec fn loan_view(loan: Option<Vec<u64>>) -> Option<Seq<u64>> {
    match loan {
        Some(regions) => Some(regions@),
        None => None,
    }
}

pub open spec fn loan_views(loans: Seq<Option<Vec<u64>>>) -> Seq<Option<Seq<u64>>> {
    Seq::new(loans.len(), |i: int| loan_view(loans[i]))
}

impl View for Local {
    type V = LocalView;

    closed spec fn view(&self) -> LocalView {
        LocalView {
            info: self.info@,
            topo: self.topo@,
            gpus: self.gpus@,
            order: self.tables.order(),
            state: self.tables@,
            loans: loan_views(self.loans@),
        }
    }
}

/// One place that the bytes of a slot are to be copied to.
#[derive(Copy, Clone, Debug, PartialEq, Eq, Structural)]
pub struct Target {
    pub device: Device,
    pub addr: u64,
    pub len: u64,
}

/// What a write is to do next.
pub enum Step {
    /// Copy the bytes of a slot to every target, and report.
    Copy { slot: usize, targets: Vec<Target> },
    /// Nothing: every slot has its result.
    Done,
}

/// The targets of a list of spots.
pub open spec fn spot_targets(s: LocalState, spots: Seq<Spot>) -> Seq<Target> {
    Seq::new(
        spots.len(),
        |i: int|
            Target {
                device: Device::Cpu { numa: spots[i].0 },
                addr: s.bufs[spots[i].2 as int]->0.buf.addr,
                len: s.bufs[spots[i].2 as int]->0.buf.len as u64,
            },
    )
}

/// Whether a step says what a write waits for.
pub open spec fn step_ok(s: LocalState, run: int, step: Step) -> bool {
    match s.runs[run]->0.pending {
        Some(spots) => step matches Step::Copy { slot, targets } && slot
            == s.runs[run]->0.results.len() && targets@ == spot_targets(s, spots),
        None => step is Done,
    }
}

/// One copy of a slot that is being written: which pieces, through which engine.
pub struct CopyPlan {
    pub engine: Engine,
    pub pieces: Vec<Piece>,
}

/// Whether a plan copies a source to a target, all of it, through the engine
/// between their devices.
pub open spec fn is_copy(
    gpus: Seq<u16>,
    src: Seq<IovView>,
    target: Target,
    plan: CopyPlan,
) -> bool {
    &&& copy::engine_for(gpus, src[0].region.device, target.device) == Ok::<Engine, ErrorView>(
        plan.engine,
    )
    &&& copy::moves(plan.pieces@) == copy::straight(
        copy::pair_segs(region::segments(src)),
        0,
        seq![Seg { addr: target.addr, len: target.len }],
        target.len as nat,
    )
}

/// What a read is to do: which pieces to copy, through which engine, from
/// which replica; and what to give back when it is done.
pub struct ReadPlan {
    pub from: Location,
    pub engine: Engine,
    pub pieces: Vec<Piece>,
    /// What is kept until the read has ended.
    pub hold: Hold,
}

/// What a read keeps.
#[derive(Copy, Clone, Debug, PartialEq, Eq, Structural)]
pub enum Hold {
    /// An allocation, by its place in the table of allocations.
    Pool(usize),
    /// Lent memory: the number of the read.
    Lent(usize),
}

impl LocalView {
    /// What the start of a `get` answers: the replica to read, or the refusal.
    pub open spec fn get_result(self, key: Seq<u8>, op: OpGetView) -> Result<
        LocalReplica,
        ErrorView,
    > {
        match self.state.source(self.topo.gpu_numa, key, op) {
            Err(e) => Err(e),
            Ok(r) => match copy::engine_for(self.gpus, r.device, op.dst[0].region.device) {
                Err(e) => Err(e),
                Ok(_) => Ok(r),
            },
        }
    }

    /// What a read of a replica keeps.
    pub open spec fn hold_of(self, r: LocalReplica) -> Hold {
        match r.data {
            LocalData::Pinned(id) => Hold::Pool(id),
            LocalData::External { .. } => Hold::Lent(ledger::next_id(self.loans) as usize),
        }
    }

    /// The backend after the start of a `get`: what is to be read is kept.
    pub open spec fn get_begun(self, key: Seq<u8>, op: OpGetView) -> LocalView {
        match self.get_result(key, op) {
            Ok(r) => match r.data {
                LocalData::Pinned(id) => LocalView {
                    state: self.state.read_begun(id as int),
                    ..self
                },
                LocalData::External { regions, .. } => LocalView {
                    loans: ledger::stored(
                        self.loans,
                        ledger::next_id(self.loans),
                        Some(regions),
                    ),
                    ..self
                },
            },
            Err(_) => self,
        }
    }

    /// Whether a read that keeps `hold` is in flight.
    pub open spec fn held(self, hold: Hold) -> bool {
        match hold {
            Hold::Pool(id) => self.state.live(id as int) && self.state.bufs[id as int]->0.readers
                > 0,
            Hold::Lent(n) => n < self.loans.len() && self.loans[n as int] is Some,
        }
    }

    /// The backend after the end of a read.
    pub open spec fn get_ended(self, hold: Hold) -> LocalView {
        match hold {
            Hold::Pool(id) => LocalView { state: self.state.read_ended(id as int), ..self },
            Hold::Lent(n) => LocalView { loans: self.loans.update(n as int, None), ..self },
        }
    }

    /// Whether a read of lent memory in a region is in flight.
    pub open spec fn reading(self, id: u64) -> bool {
        exists|n: int|
            0 <= n < self.loans.len() && (#[trigger] self.loans[n]) is Some
                && self.loans[n]->0.contains(id)
    }

    /// Whether a plan is the one for reading a replica.
    pub open spec fn is_plan(self, r: LocalReplica, op: OpGetView, plan: ReadPlan) -> bool {
        &&& plan.from == (Location { node: self.info.node, device: r.device, tier: r.tier })
        &&& copy::engine_for(self.gpus, r.device, op.dst[0].region.device) == Ok::<Engine, ErrorView>(
            plan.engine,
        )
        &&& plan.hold == self.hold_of(r)
        &&& exists|src: Seq<Seg>, dst: Seq<Seg>|
            #![trigger copy::seg_pairs(src), copy::seg_pairs(dst)]
            copy::seg_pairs(src) == self.state.segs(r) && copy::seg_pairs(dst) == region::segments(op.dst) && copy::moves(
                plan.pieces@,
            ) == copy::straight(src, op.src_offset as int, dst, region::iov_total(op.dst))
    }

    pub open spec fn devices(self) -> Seq<Device> {
        Seq::new(self.order.len(), |i: int| Device::Cpu { numa: self.order[i] }) + Seq::new(
            self.gpus.len(),
            |i: int| Device::Gpu { index: self.gpus[i] },
        )
    }
}

/// Whether lent memory lies within the addresses there are.
pub open spec fn externals_addressable(s: LocalState) -> bool {
    forall|k: Seq<u8>, i: int, j: int|
        #[trigger] safety::has(s, k, i, j) && safety::rep(s, k, i, j).data is External ==> pairs_addressable(
            safety::rep(s, k, i, j).data->segs,
        )
}

pub open spec fn pairs_addressable(segs: Seq<(u64, u64)>) -> bool {
    forall|i: int| 0 <= i < segs.len() ==> (#[trigger] segs[i]).0 + segs[i].1 <= u64::MAX + 1
}

/// Whether one more read of any allocation can be counted.
pub open spec fn reads_countable(s: LocalState) -> bool {
    forall|id: int| #[trigger] s.live(id) ==> s.bufs[id]->0.readers < u64::MAX
}

impl Local {
    pub closed spec fn wf(&self) -> bool {
        &&& self.tables.wf()
        &&& safety::local_inv(self.tables@)
        &&& self.tables@.lined_up()
        &&& self.info@.devices == self@.devices()
    }

    /// What every well-formed backend keeps.
    pub proof fn lemma_wf(&self)
        requires
            self.wf(),
        ensures
            safety::local_inv(self@.state),
            self@.state.lined_up(),
            self@.info.devices == self@.devices(),
    {
    }

    pub fn info(&self) -> (r: AccessInfo)
        ensures
            r@ == self@.info,
    {
        self.info.clone()
    }

    pub fn topology(&self) -> (r: &Topology)
        ensures
            r@ == self@.topo,
    {
        &self.topo
    }

    /// (numa, capacity, free) per pool.
    pub fn pool_stats(&self) -> (r: Vec<(u16, usize, usize)>)
        requires
            self.wf(),
        ensures
            r@.len() == self@.order.len(),
            forall|i: int|
                0 <= i < r@.len() ==> {
                    let pool = self@.state.pools[self@.order[i]].pinned;
                    &&& (#[trigger] r@[i]).0 == self@.order[i]
                    &&& r@[i].1 == pool.len
                    &&& r@[i].2 == pinned::free_total(pool.free)
                },
    {
        let mut out: Vec<(u16, usize, usize)> = Vec::new();
        for i in 0..self.tables.pools.len()
            invariant
                self.wf(),
                out@.len() == i,
                forall|j: int|
                    0 <= j < i ==> {
                        let pool = self@.state.pools[self@.order[j]].pinned;
                        &&& (#[trigger] out@[j]).0 == self@.order[j]
                        &&& out@[j].1 == pool.len
                        &&& out@[j].2 == pinned::free_total(pool.free)
                    },
        {
            proof {
                tables::lemma_dram_at(self.tables.pools@, i as int);
                assert(self@.order[i as int] == self.tables.pools@[i as int]@.pinned.numa);
                assert(self@.state.pools.contains_key(self@.order[i as int]));
            }
            let p = &self.tables.pools[i].pinned;
            out.push((p.numa(), p.capacity(), p.free_bytes()));
        }
        out
    }

    /// Register user memory. A number is used up even where the GPU is refused.
    pub fn register(&self, ids: &mut RegionIds, addr: u64, len: u64, device: Device) -> (r: Result<
        MemoryRegion,
        Error,
    >)
        ensures
            final(ids)@ == old(ids)@.wrapping_add(1),
            match device {
                Device::Gpu { index } => if self@.gpus.contains(index) {
                    r is Ok && r->Ok_0@ == (RegionView { id: old(ids)@, addr, len, device })
                } else {
                    r is Err && r->Err_0@ == copy::gpu_not_served(index)
                },
                Device::Cpu { .. } => r is Ok && r->Ok_0@ == (RegionView {
                    id: old(ids)@,
                    addr,
                    len,
                    device,
                }),
            },
    {
        let id = MemoryRegion::next_id(ids);
        if let Device::Gpu { index } = device {
            match crate::copy::check_gpu(&self.gpus, index) {
                Err(e) => return Err(e),
                Ok(_) => {},
            }
        }
        Ok(MemoryRegion::with_id(id, addr, len, device))
    }

    // ---- put ----

    /// Reserve the key, claim the slots that may be written, and give the write a
    /// number.
    pub fn begin_put(&mut self, key: Key, op: &OpPut<'_>) -> (r: Result<usize, Error>)
        requires
            old(self).wf(),
        ensures
            final(self).wf(),
            final(self)@ == (LocalView { state: final(self)@.state, ..old(self)@ }),
            ({
                let (s, want) = old(self)@.state.begun(key@, op@);
                &&& final(self)@.state == s
                &&& match want {
                    Ok(run) => r is Ok && r->Ok_0 == run,
                    Err(e) => r is Err && r->Err_0@ == e,
                }
            }),
    {
        let ghost s = self.tables@;
        match op.validate() {
            Err(e) => return Err(e),
            Ok(_) => {},
        }
        let spec = op.spec();
        let mut found = self.tables.objects.find(&key);
        if let Some(at) = found {
            let obj = self.tables.objects.at(at);
            assert(s.objects[key@] == obj@);
            if !obj.spec.same(&spec) {
                return Err(
                    Error::new(
                        ErrorKind::SpecMismatch,
                        "existing object has a different spec",
                    ).with_context("key", key.debug_text()),
                );
            }
        } else {
            let mut slots: Vec<SlotRow> = Vec::new();
            for i in 0..spec.slots.len()
                invariant
                    slots@.len() == i,
                    forall|j: int|
                        0 <= j < i ==> (#[trigger] slots@[j])@ == (LocalSlot {
                            replicas: Seq::empty(),
                            writing: None,
                        }),
            {
                let slot = SlotRow { replicas: Vec::new(), writing: None };
                assert(slot@.replicas =~= Seq::empty());
                slots.push(slot);
            }
            let obj = ObjectRow { spec: spec.clone(), slots };
            let ghost view = obj@;
            assert(view.slots =~= s.reserved(key@, spec@).objects[key@].slots);
            self.tables.objects.insert(key.clone(), obj);
            assert(self.tables@.objects =~= s.reserved(key@, spec@).objects);
            found = self.tables.objects.find(&key);
        }
        let ghost m = s.reserved(key@, spec@);
        assert(self.tables@ =~= m);
        let at = match found {
            Some(at) => at,
            None => return Err(Error::new(ErrorKind::NotFound, "no such key")),
        };
        proof {
            assert(self.tables.runs@.len() == self.tables.runs.len());
            writes::lemma_begun(s, key@, op@);
            queue::lemma_begun_lined_up(s, key@, op@);
        }
        let mut run: usize = 0;
        while run < self.tables.runs.len() && self.tables.runs[run].is_some()
            invariant
                run <= self.tables.runs@.len(),
                forall|j: int| 0 <= j < run ==> (#[trigger] self.tables.runs@[j]) is Some,
            decreases self.tables.runs@.len() - run,
        {
            run = run + 1;
        }
        proof {
            assert forall|j: int| 0 <= j < run implies (#[trigger] s.runs[j]) is Some by {
                assert(self.tables.runs@[j] is Some);
            }
            if run < s.runs.len() {
                assert(s.runs[run as int] is None);
            }
            let c = safety::lemma_next(s.runs, run as int);
            assert(c == run);
        }
        let mut writable: Vec<bool> = Vec::new();
        let obj = self.tables.objects.at_mut(at);
        let ghost obj0 = *obj;
        assert(m.objects[key@] == obj0@);
        let n: usize = obj.slots.len();
        for i in 0..n
            invariant
                n == obj.slots@.len(),
                n == obj0.slots@.len(),
                m.objects[key@] == obj0@,
                obj.spec == obj0.spec,
                writable@ == Seq::new(i as nat, |j: int| m.claimable(key@, j)),
                forall|j: int|
                    0 <= j < i ==> (#[trigger] obj.slots@[j])@ == m.claimed(
                        key@,
                        run,
                    ).objects[key@].slots[j],
                forall|j: int| i <= j < n ==> (#[trigger] obj.slots@[j]) == obj0.slots@[j],
        {
            assert(obj.slots@[i as int] == obj0.slots@[i as int]);
            assert(m.objects[key@].slots[i as int] == obj0.slots@[i as int]@);
            let w = obj.slots[i].replicas.len() == 0 && obj.slots[i].writing.is_none();
            if w {
                obj.slots[i].writing = Some(run);
            }
            writable.push(w);
            assert(w == m.claimable(key@, i as int));
            assert(writable@ =~= Seq::new((i + 1) as nat, |j: int| m.claimable(key@, j)));
        }
        let ghost obj1 = *obj;
        assert(obj1@.slots =~= m.claimed(key@, run).objects[key@].slots);
        assert(self.tables@.objects =~= m.claimed(key@, run).objects);
        let ghost runs0 = self.tables@.runs;
        let record = Run { key, spec, writable, results: Vec::new(), pending: None };
        let ghost view = record@;
        assert(view.results =~= Seq::empty());
        assert(view.writable =~= Seq::new(op@.slots.len(), |i: int| m.claimable(key@, i)));
        if run < self.tables.runs.len() {
            self.tables.runs.set(run, Some(record));
        } else {
            self.tables.runs.push(Some(record));
        }
        assert(self.tables@.runs =~= ledger::stored(runs0, run as int, Some(view)));
        proof {
            let (t, _) = s.begun(key@, op@);
            assert(self.tables@ =~= t);
        }
        Ok(run)
    }

    /// Record the result of the slot that a write is at.
    fn answer(&mut self, run: usize, result: Result<(), Error>)
        requires
            old(self).tables.wf(),
            old(self).tables@.active(run as int),
        ensures
            final(self).tables.wf(),
            final(self).info == old(self).info,
            final(self).topo == old(self).topo,
            final(self).gpus == old(self).gpus,
            final(self).loans == old(self).loans,
            final(self).tables.pools == old(self).tables.pools,
            final(self).tables.objects == old(self).tables.objects,
            final(self).tables.bufs == old(self).tables.bufs,
            final(self).tables@ == old(self).tables@.answered(run as int, error::result_view(result)),
    {
        let ghost s = self.tables@;
        let mut slot: Option<Run> = None;
        core::mem::swap(&mut self.tables.runs[run], &mut slot);
        if let Some(r) = slot {
            let ghost before = error::results_view(r.results@);
            let mut results = r.results;
            results.push(result);
            assert(error::results_view(results@) =~= before.push(error::result_view(result)));
            let record = Run {
                key: r.key,
                spec: r.spec,
                writable: r.writable,
                results,
                pending: None,
            };
            self.tables.runs.set(run, Some(record));
        }
        assert(self.tables@.runs =~= s.answered(run as int, error::result_view(result)).runs);
    }

    /// Give up a claim, where it still holds.
    fn unclaim(&mut self, key: &Key, i: usize, run: usize)
        requires
            old(self).tables.wf(),
        ensures
            final(self).tables.wf(),
            final(self).info == old(self).info,
            final(self).topo == old(self).topo,
            final(self).gpus == old(self).gpus,
            final(self).loans == old(self).loans,
            final(self).tables.pools == old(self).tables.pools,
            final(self).tables.bufs == old(self).tables.bufs,
            final(self).tables.runs == old(self).tables.runs,
            final(self).tables@ == old(self).tables@.unclaimed(key@, i as int, run),
    {
        let ghost s = self.tables@;
        if let Some(at) = self.tables.objects.find(key) {
            let obj = self.tables.objects.at(at);
            assert(s.objects[key@] == obj@);
            if i < obj.slots.len() {
                assert(obj@.slots[i as int] == obj.slots@[i as int]@);
                let holds = match obj.slots[i].writing {
                    Some(w) => w == run,
                    None => false,
                };
                if holds {
                    let obj = self.tables.objects.at_mut(at);
                    let ghost obj0 = *obj;
                    obj.slots[i].writing = None;
                    let ghost obj1 = *obj;
                    assert(obj1@.slots =~= obj0@.slots.update(
                        i as int,
                        LocalSlot { writing: None, ..obj0@.slots[i as int] },
                    ));
                    assert(self.tables@.objects =~= s.unclaimed(key@, i as int, run).objects);
                }
            }
        }
    }

    /// Go on with a write: to the next slot that has bytes to be copied, or to
    /// the end. A number that no write has is done.
    pub fn advance(&mut self, run: usize) -> (r: Step)
        requires
            old(self).wf(),
        ensures
            final(self).wf(),
            final(self)@ == (LocalView { state: final(self)@.state, ..old(self)@ }),
            !old(self)@.state.active(run as int) ==> final(self)@ == old(self)@ && r is Done,
            old(self)@.state.active(run as int) ==> {
                let s = old(self)@.state.advanced(old(self)@.order, run as int);
                &&& final(self)@.state == s
                &&& s.active(run as int)
                &&& step_ok(s, run as int, r)
            },
    {
        let ghost s0 = self.tables@;
        let ghost order = self.tables.order();
        if run >= self.tables.runs.len() || self.tables.runs[run].is_none() {
            assert(!s0.active(run as int));
            return Step::Done;
        }
        let ghost goal = s0.advanced(order, run as int);
        let mut more = true;
        while more
            invariant
                self.wf(),
                self@ == (LocalView { state: self@.state, ..old(self)@ }),
                order == self@.order,
                order == self.tables.order(),
                self.tables@.active(run as int),
                goal == old(self)@.state.advanced(order, run as int),
                more ==> self.tables@.advanced(order, run as int) == goal,
                !more ==> self.tables@ == goal,
            decreases
                self.tables@.runs[run as int]->0.spec.slots.len()
                    - self.tables@.runs[run as int]->0.results.len() + if more {
                    1int
                } else {
                    0int
                },
        {
            let ghost s = self.tables@;
            let ghost rec = s.runs[run as int]->0;
            assert(safety::run_ok(s, run as int));
            assert(s.runs[run as int] == tables::run_view(self.tables.runs@[run as int]));
            let mut i: usize = 0;
            let next: Option<(bool, Placement, u64, Key)> = match &self.tables.runs[run] {
                Some(r) => {
                    i = r.results.len();
                    if r.pending.is_some() || i >= r.spec.slots.len() {
                        None
                    } else {
                        assert(r@.spec.slots[i as int] == r.spec.slots@[i as int]@);
                        Some(
                            (
                                r.writable[i],
                                r.spec.slots[i].placement.clone(),
                                r.spec.slots[i].len,
                                r.key.clone(),
                            ),
                        )
                    }
                },
                None => None,
            };
            if next.is_none() {
                more = false;
            }
            if let Some((writable, placement, len, key)) = next {
                if !writable {
                    proof {
                        lemma_not_held(s, run as int);
                        writes::lemma_answered(
                            s,
                            run as int,
                            Err(ledger::already_written(i as nat)),
                        );
                        queue::lemma_kept_in_order(
                            s,
                            s.answered(run as int, Err(ledger::already_written(i as nat))),
                        );
                    }
                    self.answer(
                        run,
                        Err(
                            Error::new(
                                ErrorKind::AlreadyExists,
                                "slot already written",
                            ).with_context("slot", decimal_string(i as u64)),
                        ),
                    );
                } else {
                    match self.tables.place(&placement, len, run, &key) {
                        Ok(spots) => {
                            let ghost t = self.tables@;
                            proof {
                                writes::lemma_pending(t, run as int, spots@);
                                queue::lemma_kept_in_order(
                                    t,
                                    t.with_run(
                                        run as int,
                                        RunView { pending: Some(spots@), ..rec },
                                    ),
                                );
                            }
                            let ghost spots_view = spots@;
                            let mut slot: Option<Run> = None;
                            core::mem::swap(&mut self.tables.runs[run], &mut slot);
                            if let Some(r) = slot {
                                let record = Run {
                                    key: r.key,
                                    spec: r.spec,
                                    writable: r.writable,
                                    results: r.results,
                                    pending: Some(spots),
                                };
                                self.tables.runs.set(run, Some(record));
                            }
                            more = false;
                            assert(self.tables@.runs =~= t.with_run(
                                run as int,
                                RunView { pending: Some(spots_view), ..rec },
                            ).runs);
                            assert(self.tables@ =~= goal);
                        },
                        Err(e) => {
                            let ghost t = self.tables@;
                            let e = e.with_context("slot", decimal_string(i as u64));
                            proof {
                                writes::lemma_answered(t, run as int, Err(e@));
                                queue::lemma_unclaimed_lined_up(t, key@, i as int, run);
                                let free = t.unclaimed(key@, i as int, run);
                                queue::lemma_kept_in_order(free, free.answered(run as int, Err(e@)));
                            }
                            self.unclaim(&key, i, run);
                            self.answer(run, Err(e));
                        },
                    }
                }
            }
        }
        let ghost s = self.tables@;
        assert(s.runs[run as int] == tables::run_view(self.tables.runs@[run as int]));
        assert(safety::run_ok(s, run as int));
        match &self.tables.runs[run] {
            Some(r) => match &r.pending {
                Some(spots) => {
                    let ghost want = spot_targets(s, spots@);
                    let mut targets: Vec<Target> = Vec::new();
                    for j in 0..spots.len()
                        invariant
                            s == self.tables@,
                            want == spot_targets(s, spots@),
                            safety::spots_ok(
                                s,
                                run as int,
                                spots@,
                                s.runs[run as int]->0.spec.slots[s.runs[run as int]->0.results.len() as int].len,
                            ),
                            targets@ == want.take(j as int),
                    {
                        let (numa, _, id) = spots[j];
                        assert(safety::spot_ok(
                            s,
                            run as int,
                            spots@[j as int],
                            s.runs[run as int]->0.spec.slots[s.runs[run as int]->0.results.len() as int].len,
                        ));
                        assert(s.bufs[id as int] == tables::buffer_view(self.tables.bufs@[id as int]));
                        if let Some(b) = self.tables.bufs[id] {
                            targets.push(
                                Target {
                                    device: Device::Cpu { numa },
                                    addr: b.buf.addr,
                                    len: b.buf.len as u64,
                                },
                            );
                        }
                        assert(targets@ =~= want.take(j + 1));
                    }
                    assert(targets@ =~= want);
                    Step::Copy { slot: r.results.len(), targets }
                },
                None => Step::Done,
            },
            None => Step::Done,
        }
    }
}

/// A slot that was not claimed is not held.
proof fn lemma_not_held(s: LocalState, run: int)
    requires
        safety::local_inv(s),
        s.active(run),
        s.runs[run]->0.results.len() < s.runs[run]->0.spec.slots.len(),
        !s.runs[run]->0.writable[s.runs[run]->0.results.len() as int],
    ensures
        ({
            let r = s.runs[run]->0;
            s.unclaimed(r.key, r.results.len() as int, run as usize) == s
        }),
{
    let r = s.runs[run]->0;
    let i = r.results.len() as int;
    assert(safety::run_ok(s, run));
    if s.holds(r.key, i, run as usize) {
        assert(safety::claim_ok(s, r.key, i));
    }
}

impl Local {
    /// Make the spots of a slot its replicas, and queue them for eviction.
    fn store(&mut self, at: usize, key: &Key, i: usize, run: usize, spots: &Vec<Spot>)
        requires
            old(self).tables.wf(),
            old(self).tables@.holds(key@, i as int, run),
            at < old(self).tables.objects.keys().len(),
            old(self).tables.objects.keys()[at as int] == key@,
            forall|x: int|
                0 <= x < spots@.len() ==> old(self).tables@.live((#[trigger] spots@[x]).2 as int)
                    && old(self).tables@.pools.contains_key(spots@[x].0),
            forall|x: int, y: int|
                0 <= x < y < spots@.len() ==> (#[trigger] spots@[x]).2 != (#[trigger] spots@[y]).2,
        ensures
            final(self).tables.wf(),
            final(self).info == old(self).info,
            final(self).topo == old(self).topo,
            final(self).gpus == old(self).gpus,
            final(self).loans == old(self).loans,
            final(self).tables.order() == old(self).tables.order(),
            (final(self).tables@, Ok::<(), ErrorView>(())) == old(self).tables@.committed(
                key@,
                i as nat,
                run,
                spots@,
            ),
    {
        let ghost s = self.tables@;
        let ghost slot0 = s.objects[key@].slots[i as int];
        let ghost after = LocalSlot {
            replicas: slot0.replicas + ledger::spot_replicas(spots@),
            writing: None,
        };
        let obj = self.tables.objects.at_mut(at);
        let ghost obj0 = *obj;
        assert(s.objects[key@] == obj0@);
        assert(slot0 == obj0.slots@[i as int]@);
        for j in 0..spots.len()
            invariant
                i < obj.slots@.len(),
                obj.spec == obj0.spec,
                obj.slots@.len() == obj0.slots@.len(),
                forall|x: int|
                    0 <= x < obj.slots@.len() && x != i ==> #[trigger] obj.slots@[x]
                        == obj0.slots@[x],
                obj.slots@[i as int]@.replicas == slot0.replicas + ledger::spot_replicas(spots@).take(
                    j as int,
                ),
        {
            let ghost before = obj.slots@[i as int]@.replicas;
            let (numa, misplaced, id) = spots[j];
            obj.slots[i].replicas.push(
                ReplicaRow {
                    device: Device::Cpu { numa },
                    tier: Tier::Dram,
                    misplaced,
                    data: Backing::Pinned(id),
                },
            );
            assert(obj.slots@[i as int]@.replicas =~= before.push(ledger::spot_replicas(spots@)[j as int]));
            assert(obj.slots@[i as int]@.replicas =~= slot0.replicas + ledger::spot_replicas(spots@).take(
                j + 1,
            ));
        }
        obj.slots[i].writing = None;
        let ghost obj1 = *obj;
        assert(ledger::spot_replicas(spots@).take(spots@.len() as int) =~= ledger::spot_replicas(spots@));
        assert(obj1@.slots =~= obj0@.slots.update(i as int, after));
        let ghost a = s.with_slot(key@, i as int, after);
        assert(self.tables@.objects =~= a.objects);
        assert(self.tables@ =~= a);
        for j in 0..spots.len()
            invariant
                self.tables.wf(),
                self.info == old(self).info,
                self.topo == old(self).topo,
                self.gpus == old(self).gpus,
                self.loans == old(self).loans,
                self.tables.pools == old(self).tables.pools,
                forall|x: int| 0 <= x < spots@.len() ==> a.live((#[trigger] spots@[x]).2 as int),
                forall|x: int, y: int|
                    0 <= x < y < spots@.len() ==> (#[trigger] spots@[x]).2 != (
                    #[trigger] spots@[y]).2,
                self.tables@ == a.kept(spots@, j as nat),
        {
            let ghost t = self.tables@;
            let id = spots[j].2;
            proof {
                writes::lemma_kept(a, spots@, j as nat);
                assert(a.live(spots@[j as int].2 as int));
                assert(t.bufs[id as int] == a.bufs[id as int]);
                assert(t.bufs[id as int] == tables::buffer_view(self.tables.bufs@[id as int]));
            }
            if let Some(b) = self.tables.bufs[id] {
                self.tables.bufs.set(id, Some(Buffer { keeper: Keeper::Stored, ..b }));
            }
            assert(self.tables@.bufs =~= a.kept(spots@, (j + 1) as nat).bufs);
            assert(self.tables@ =~= a.kept(spots@, (j + 1) as nat));
        }
        let ghost b = a.kept(spots@, spots@.len());
        proof {
            writes::lemma_kept(a, spots@, spots@.len());
        }
        for j in 0..spots.len()
            invariant
                self.tables.wf(),
                self.info == old(self).info,
                self.topo == old(self).topo,
                self.gpus == old(self).gpus,
                self.loans == old(self).loans,
                self.tables.order() == old(self).tables.order(),
                forall|x: int|
                    0 <= x < spots@.len() ==> b.pools.contains_key((#[trigger] spots@[x]).0),
                self.tables@ == b.queued(spots@, key@, i as nat, j as nat),
        {
            let ghost t = self.tables@;
            let numa = spots[j].0;
            proof {
                writes::lemma_queued(b, spots@, key@, i as nat, j as nat);
                assert(b.pools.contains_key(spots@[j as int].0));
            }
            if let Some(p) = self.tables.find_pool(numa) {
                let ghost pools0 = self.tables.pools@;
                let ghost pool0 = self.tables.pools@[p as int];
                let last = self.tables.pools[p].fifo.len();
                let listed = last > 0 && {
                    let (k, x) = &self.tables.pools[p].fifo[last - 1];
                    *x == i && k.same(key)
                };
                if !listed {
                    self.tables.pools[p].fifo.push_back((key.clone(), i));
                }
                proof {
                    assert(self.tables.pools@ =~= pools0.update(
                        p as int,
                        self.tables.pools@[p as int],
                    ));
                    tables::lemma_dram_update(pools0, p as int, self.tables.pools@[p as int]);
                    assert(state::entry_views(self.tables.pools@[p as int].fifo@) =~= model::appended(
                        state::entry_views(pool0.fifo@),
                        (key@, i as nat),
                    ));
                }
            }
            assert(self.tables@ =~= b.queued(spots@, key@, i as nat, (j + 1) as nat));
        }
    }

    /// The copies of a slot to its targets; refused where no engine goes from its
    /// source to one of them.
    pub fn plan_copies(&self, src: &[Iov<'_>], targets: &[Target]) -> (r: Result<
        Vec<CopyPlan>,
        Error,
    >)
        requires
            src@.len() > 0,
            pairs_addressable(region::segments(region::iov_views(src@))),
            region::iov_total(region::iov_views(src@)) <= u64::MAX,
            forall|j: int|
                0 <= j < targets@.len() ==> (#[trigger] targets@[j]).addr + targets@[j].len
                    <= u64::MAX + 1 && targets@[j].len <= region::iov_total(
                    region::iov_views(src@),
                ),
        ensures
            ({
                let iovs = region::iov_views(src@);
                match r {
                    Ok(plans) => plans@.len() == targets@.len() && forall|j: int|
                        0 <= j < targets@.len() ==> is_copy(
                            self@.gpus,
                            iovs,
                            targets@[j],
                            #[trigger] plans@[j],
                        ),
                    Err(e) => exists|j: int|
                        #![trigger targets@[j]]
                        0 <= j < targets@.len() && copy::engine_for(
                            self@.gpus,
                            iovs[0].region.device,
                            targets@[j].device,
                        ) == Err::<Engine, ErrorView>(e@) && forall|x: int|
                            0 <= x < j ==> copy::engine_for(
                                self@.gpus,
                                iovs[0].region.device,
                                (#[trigger] targets@[x]).device,
                            ) is Ok,
                }
            }),
    {
        let ghost iovs = region::iov_views(src@);
        let ghost pairs = region::segments(iovs);
        assert(iovs[0] == src@[0]@);
        let from = src[0].device();
        let segs = iov_segs(src);
        proof {
            assert forall|j: int| 0 <= j < segs@.len() implies (#[trigger] segs@[j]).addr
                + segs@[j].len <= u64::MAX + 1 by {
                assert(pairs[j] == copy::seg_pairs(segs@)[j]);
            }
        }
        let mut plans: Vec<CopyPlan> = Vec::new();
        for j in 0..targets.len()
            invariant
                src@.len() > 0,
                iovs == region::iov_views(src@),
                from == iovs[0].region.device,
                segs@ == copy::pair_segs(region::segments(iovs)),
                copy::addressable(segs@),
                copy::segs_total(segs@) == region::iov_total(iovs),
                region::iov_total(iovs) <= u64::MAX,
                forall|x: int|
                    0 <= x < targets@.len() ==> (#[trigger] targets@[x]).addr + targets@[x].len
                        <= u64::MAX + 1 && targets@[x].len <= region::iov_total(iovs),
                plans@.len() == j,
                forall|x: int|
                    0 <= x < j ==> is_copy(
                        self@.gpus,
                        iovs,
                        targets@[x],
                        #[trigger] plans@[x],
                    ),
        {
            let target = targets[j];
            let engine = match pick_engine(&self.gpus, from, target.device) {
                Ok(engine) => engine,
                Err(e) => {
                    assert(targets@[j as int] == target);
                    assert forall|x: int| 0 <= x < j implies copy::engine_for(
                        self@.gpus,
                        iovs[0].region.device,
                        (#[trigger] targets@[x]).device,
                    ) is Ok by {
                        assert(is_copy(self@.gpus, iovs, targets@[x], plans@[x]));
                    }
                    return Err(e);
                },
            };
            let seg = Seg { addr: target.addr, len: target.len };
            let dst: Vec<Seg> = vec![seg];
            assert(dst@ =~= seq![seg]);
            proof {
                assert(targets@[j as int] == target);
                assert(copy::seg_pairs(dst@).drop_last() =~= Seq::empty());
                assert(region::total_len(copy::seg_pairs(dst@).drop_last()) == 0);
                assert(copy::segs_total(dst@) == target.len);
            }
            let (pieces, planned) = zip_copy(segs.as_slice(), 0, dst.as_slice(), target.len);
            plans.push(CopyPlan { engine, pieces });
        }
        Ok(plans)
    }

    /// Report the outcome of the copy that a write waits for: the slot is
    /// written, or its allocations and its claim are given up. Says whether a
    /// write with that number waited.
    pub fn copied(&mut self, run: usize, outcome: Result<(), Error>) -> (r: bool)
        requires
            old(self).wf(),
        ensures
            final(self).wf(),
            final(self)@ == (LocalView { state: final(self)@.state, ..old(self)@ }),
            r == (old(self)@.state.active(run as int) && old(self)@.state.runs[run as int]->0.pending
                is Some),
            !r ==> final(self)@ == old(self)@,
            r ==> final(self)@.state == old(self)@.state.copied(run as int, error::result_view(outcome)),
    {
        let ghost s = self.tables@;
        if run >= self.tables.runs.len() {
            return false;
        }
        assert(s.runs[run as int] == tables::run_view(self.tables.runs@[run as int]));
        let (i, key, spots): (usize, Key, Vec<Spot>) = match &self.tables.runs[run] {
            Some(r) => match &r.pending {
                Some(spots) => (
                    r.results.len(),
                    r.key.clone(),
                    vstd::slice::slice_to_vec(spots.as_slice()),
                ),
                None => return false,
            },
            None => return false,
        };
        let ghost rec = s.runs[run as int]->0;
        let ghost len = rec.spec.slots[rec.results.len() as int].len;
        proof {
            assert(s.active(run as int));
            assert(safety::run_ok(s, run as int));
            assert(self.tables.bufs@.len() == self.tables.bufs.len());
            writes::lemma_copied(s, run as int, error::result_view(outcome));
            queue::lemma_copied_lined_up(s, run as int, error::result_view(outcome));
            assert forall|x: int| 0 <= x < spots@.len() implies s.live(
                (#[trigger] spots@[x]).2 as int,
            ) && s.pools.contains_key(spots@[x].0) by {
                assert(safety::spot_ok(s, run as int, spots@[x], len));
                assert(safety::buf_ok(s, spots@[x].2 as int));
            }
        }
        let mut error: Option<Error> = None;
        match outcome {
            Ok(_) => {
                let mut at: Option<usize> = None;
                if let Some(p) = self.tables.objects.find(&key) {
                    let obj = self.tables.objects.at(p);
                    assert(s.objects[key@] == obj@);
                    if i < obj.slots.len() {
                        assert(obj@.slots[i as int] == obj.slots@[i as int]@);
                        if let Some(w) = obj.slots[i].writing {
                            if w == run {
                                at = Some(p);
                            }
                        }
                    }
                }
                match at {
                    Some(p) => {
                        assert(s.holds(key@, i as int, run));
                        self.store(p, &key, i, run, &spots);
                        let ghost t = self.tables@;
                        proof {
                            assert(t.runs == s.runs) by {
                                lemma_committed_runs(s, key@, i as nat, run, spots@);
                            }
                        }
                        self.answer(run, Ok(()));
                        assert(self.tables@ == s.copied(run as int, Ok(())));
                        return true;
                    },
                    None => {
                        assert(!s.holds(key@, i as int, run));
                        error = Some(Error::new(ErrorKind::NotFound, "object removed during put"));
                    },
                }
            },
            Err(e) => {
                error = Some(e);
            },
        }
        let mut ids: Vec<usize> = Vec::new();
        for j in 0..spots.len()
            invariant
                ids@ == ledger::spot_ids(spots@).take(j as int),
        {
            ids.push(spots[j].2);
            assert(ids@ =~= ledger::spot_ids(spots@).take(j + 1));
        }
        assert(ids@ =~= ledger::spot_ids(spots@));
        proof {
            assert forall|x: int| 0 <= x < ids@.len() implies s.live(#[trigger] ids@[x] as int) by {
                assert(s.live(spots@[x].2 as int));
            }
            assert forall|x: int, y: int| 0 <= x < y < ids@.len() implies #[trigger] ids@[x]
                != #[trigger] ids@[y] by {
                assert(spots@[x].2 != spots@[y].2);
            }
            writes::lemma_let_go_keeps(s, ids@, ids@.len());
        }
        self.tables.let_go_all(&ids);
        let ghost t = self.tables@;
        assert(t.holds(key@, i as int, run) == s.holds(key@, i as int, run));
        self.unclaim(&key, i, run);
        if let Some(e) = error {
            let e = e.with_context("slot", decimal_string(i as u64));
            self.answer(run, Err(e));
        }
        assert(self.tables@ == s.copied(run as int, error::result_view(outcome)));
        true
    }

    /// End a write and take its results. `None` where some slot has none yet, or
    /// no write has that number.
    pub fn end_put(&mut self, run: usize) -> (r: Option<RpPut>)
        requires
            old(self).wf(),
        ensures
            final(self).wf(),
            final(self)@ == (LocalView { state: final(self)@.state, ..old(self)@ }),
            old(self)@.state.active(run as int) && old(self)@.state.complete(run as int) ==> r
                is Some && r->0@ == old(self)@.state.runs[run as int]->0.results
                && final(self)@.state == old(self)@.state.ended(run as int),
            !(old(self)@.state.active(run as int) && old(self)@.state.complete(run as int)) ==> r
                is None && final(self)@ == old(self)@,
    {
        let ghost s = self.tables@;
        if run >= self.tables.runs.len() {
            return None;
        }
        assert(s.runs[run as int] == tables::run_view(self.tables.runs@[run as int]));
        match &self.tables.runs[run] {
            Some(r) => if r.pending.is_some() || r.results.len() != r.spec.slots.len() {
                return None;
            },
            None => return None,
        }
        proof {
            writes::lemma_ended(s, run as int);
            queue::lemma_kept_in_order(s, s.ended(run as int));
        }
        let mut slot: Option<Run> = None;
        core::mem::swap(&mut self.tables.runs[run], &mut slot);
        assert(self.tables@.runs =~= s.ended(run as int).runs);
        match slot {
            Some(r) => Some(RpPut { slots: r.results }),
            None => None,
        }
    }

    // ---- get ----

    /// The replica to read: the nearest to `dst`, the better tier among equally
    /// near ones, the first among equals.
    fn pick(&self, replicas: &Vec<ReplicaRow>, dst: Device) -> (r: usize)
        requires
            replicas@.len() > 0,
        ensures
            ledger::is_nearest_local(
                self@.topo.gpu_numa,
                dst,
                tables::replica_row_views(replicas@),
                r as int,
            ),
    {
        let ghost g = self@.topo.gpu_numa;
        let ghost views = tables::replica_row_views(replicas@);
        let mut best: usize = 0;
        let mut distance: u32 = self.topo.distance(dst, replicas[0].device);
        let mut rank: u8 = tier_rank(replicas[0].tier);
        for i in 1..replicas.len()
            invariant
                g == self@.topo.gpu_numa,
                views == tables::replica_row_views(replicas@),
                best < i <= replicas@.len(),
                distance == topology::distance(g, dst, views[best as int].device),
                rank == types::rank_of(views[best as int].tier),
                ledger::is_nearest_local(g, dst, views.take(i as int), best as int),
        {
            assert(views[i as int] == replicas@[i as int]@);
            let d: u32 = self.topo.distance(dst, replicas[i].device);
            let k: u8 = tier_rank(replicas[i].tier);
            let ghost best0 = best;
            assert(views.take(i as int)[best0 as int] == views[best0 as int]);
            if d < distance || d == distance && k < rank {
                best = i;
                distance = d;
                rank = k;
            }
            assert(ledger::is_nearest_local(g, dst, views.take(i + 1), best as int)) by {
                let upto = views.take(i + 1);
                assert forall|j: int| 0 <= j < best implies ledger::nearer_local(
                    g,
                    dst,
                    upto[best as int],
                    #[trigger] upto[j],
                ) by {
                    assert(views.take(i as int)[j] == upto[j]);
                }
                assert forall|j: int| best < j < upto.len() implies !ledger::nearer_local(
                    g,
                    dst,
                    #[trigger] upto[j],
                    upto[best as int],
                ) by {
                    if j < i {
                        assert(views.take(i as int)[j] == upto[j]);
                    }
                }
            }
        }
        assert(views.take(views.len() as int) =~= views);
        best
    }

    /// Choose the nearest replica of a slot, and plan the copy of the range asked
    /// for. The replica's bytes are kept until the read has ended.
    pub fn begin_get(&mut self, key: Key, op: &OpGet<'_>) -> (r: Result<ReadPlan, Error>)
        requires
            old(self).wf(),
            reads_countable(old(self)@.state),
            externals_addressable(old(self)@.state),
            ops::checked_iovs(op@.dst, None) is Ok ==> pairs_addressable(region::segments(op@.dst)),
        ensures
            final(self).wf(),
            final(self)@ == old(self)@.get_begun(key@, op@),
            match old(self)@.get_result(key@, op@) {
                Ok(replica) => r matches Ok(plan) && old(self)@.is_plan(replica, op@, plan),
                Err(e) => r matches Err(x) && x@ == e,
            },
    {
        let ghost s = self.tables@;
        let (device, len) = match op.validate() {
            Err(e) => return Err(e),
            Ok(v) => v,
        };
        let at = match self.tables.objects.find(&key) {
            Some(at) => at,
            None => return Err(
                Error::new(ErrorKind::NotFound, "no such key").with_context(
                    "key",
                    key.debug_text(),
                ),
            ),
        };
        let obj = self.tables.objects.at(at);
        let idx: usize = op.slot.0 as usize;
        assert(s.objects[key@] == obj@);
        assert(s.objects.contains_key(key@));
        assert(obj@.slots.len() == obj@.spec.slots.len());
        if idx >= obj.spec.slots.len() {
            return Err(
                Error::new(ErrorKind::InvalidInput, "slot index out of range").with_context(
                    "slot",
                    decimal_string(op.slot.0 as u64),
                ),
            );
        }
        let slot_len: u64 = obj.spec.slots[idx].len;
        assert(slot_len == obj@.spec.slots[idx as int].len);
        let fits = match op.src_offset.checked_add(len) {
            Some(end) => end <= slot_len,
            None => false,
        };
        if !fits {
            return Err(
                Error::new(ErrorKind::InvalidInput, "read range exceeds slot").with_context(
                    "src_offset",
                    decimal_string(op.src_offset),
                ).with_context("len", decimal_string(len)).with_context(
                    "slot_len",
                    decimal_string(slot_len),
                ),
            );
        }
        let replicas = &obj.slots[idx].replicas;
        assert(obj@.slots[idx as int].replicas == tables::replica_row_views(replicas@));
        if replicas.len() == 0 {
            return Err(
                Error::new(ErrorKind::Evicted, "slot has no replica").with_context(
                    "key",
                    key.debug_text(),
                ).with_context("slot", decimal_string(op.slot.0 as u64)),
            );
        }
        let i = self.pick(replicas, device);
        let row = &replicas[i];
        let ghost replica = row@;
        proof {
            law_nearest_local_is_unique(
                self@.topo.gpu_numa,
                device,
                obj@.slots[idx as int].replicas,
                i as int,
            );
            ops::law_iovs_pass_exactly_if_sound(op@.dst, None);
            assert(safety::has(s, key@, idx as int, i as int));
            assert(safety::rep(s, key@, idx as int, i as int) == replica);
            assert(safety::replica_ok(s, replica, slot_len));
        }
        let engine = match pick_engine(&self.gpus, row.device, device) {
            Ok(engine) => engine,
            Err(e) => return Err(e),
        };
        let from = Location { node: self.info.node, device: row.device, tier: row.tier };
        let mut src: Vec<Seg> = Vec::new();
        let (hold, lent): (Hold, Option<Vec<u64>>) = match &row.data {
            Backing::Pinned(id) => {
                assert(s.live(*id as int));
                assert(safety::buf_ok(s, *id as int));
                assert(s.bufs[*id as int] == tables::buffer_view(self.tables.bufs@[*id as int]));
                if let Some(b) = self.tables.bufs[*id] {
                    src.push(Seg { addr: b.buf.addr, len: b.buf.len as u64 });
                    assert(copy::seg_pairs(src@) =~= s.segs(replica));
                    proof {
                        lemma_buf_addressable(s, *id as int);
                        assert(copy::seg_pairs(src@).drop_last() =~= Seq::empty());
                        assert(region::total_len(copy::seg_pairs(src@).drop_last()) == 0);
                    }
                }
                assert(copy::segs_total(src@) == slot_len);
                (Hold::Pool(*id), None)
            },
            Backing::External { segs, regions } => {
                for j in 0..segs.len()
                    invariant
                        copy::seg_pairs(src@) == segs@.take(j as int),
                {
                    let ghost before = copy::seg_pairs(src@);
                    src.push(Seg { addr: segs[j].0, len: segs[j].1 });
                    assert(copy::seg_pairs(src@) =~= before.push(segs@[j as int]));
                    assert(copy::seg_pairs(src@) =~= segs@.take(j + 1));
                }
                assert(copy::seg_pairs(src@) =~= segs@);
                proof {
                    assert forall|j: int| 0 <= j < src@.len() implies (#[trigger] src@[j]).addr
                        + src@[j].len <= u64::MAX + 1 by {
                        assert(segs@[j] == copy::seg_pairs(src@)[j]);
                    }
                }
                let lent = vstd::slice::slice_to_vec(regions.as_slice());
                (Hold::Lent(self.next_loan()), Some(lent))
            },
        };
        let dst = iov_segs(op.dst);
        proof {
            assert forall|j: int| 0 <= j < dst@.len() implies (#[trigger] dst@[j]).addr + dst@[j].len
                <= u64::MAX + 1 by {
                assert(region::segments(op@.dst)[j] == copy::seg_pairs(dst@)[j]);
            }
            assert(copy::segs_total(src@) == slot_len);
            assert(copy::segs_total(dst@) == len);
        }
        let (pieces, planned) = zip_copy(src.as_slice(), op.src_offset, dst.as_slice(), len);
        match planned {
            Ok(_) => {},
            Err(e) => {
                assert(false);
                return Err(e);
            },
        }
        let plan = ReadPlan { from, engine, pieces, hold };
        proof {
            assert(copy::seg_pairs(src@) == s.segs(replica));
            assert(copy::seg_pairs(dst@) == region::segments(op@.dst));
            assert(self@.is_plan(replica, op@, plan));
        }
        match hold {
            Hold::Pool(id) => {
                proof {
                    writes::lemma_read_begun(s, id as int);
                    queue::lemma_read_begun_lined_up(s, id as int);
                }
                if let Some(b) = self.tables.bufs[id] {
                    assert(s.bufs[id as int] == Some(b@));
                    self.tables.bufs.set(id, Some(Buffer { readers: b.readers + 1, ..b }));
                }
                assert(self.tables@.bufs =~= s.read_begun(id as int).bufs);
                assert(self.tables@ =~= s.read_begun(id as int));
            },
            Hold::Lent(n) => {
                let ghost loans0 = self@.loans;
                let ghost kept = loan_view(lent);
                if n < self.loans.len() {
                    self.loans.set(n, lent);
                } else {
                    self.loans.push(lent);
                }
                assert(self@.loans =~= ledger::stored(loans0, n as int, kept));
            },
        }
        Ok(plan)
    }

    /// The first number that no read of lent memory has.
    fn next_loan(&self) -> (r: usize)
        ensures
            r == ledger::next_id(self@.loans),
            r <= self.loans@.len(),
    {
        for n in 0..self.loans.len()
            invariant
                forall|j: int| 0 <= j < n ==> (#[trigger] self@.loans[j]) is Some,
        {
            assert(self@.loans[n as int] == loan_view(self.loans@[n as int]));
            if self.loans[n].is_none() {
                let ghost id = safety::lemma_next(self@.loans, n as int);
                assert(ledger::is_next(self@.loans, n as int));
                assert(id == n);
                return n;
            }
        }
        let ghost id = safety::lemma_next(self@.loans, self.loans@.len() as int);
        self.loans.len()
    }

    /// Report that a read has ended; the last reader of bytes that nothing else
    /// keeps gives them back. Says whether there was such a read.
    pub fn finish_read(&mut self, hold: Hold) -> (r: bool)
        requires
            old(self).wf(),
        ensures
            final(self).wf(),
            r == old(self)@.held(hold),
            final(self)@ == if r {
                old(self)@.get_ended(hold)
            } else {
                old(self)@
            },
    {
        match hold {
            Hold::Pool(id) => self.finish_pool_read(id),
            Hold::Lent(n) => {
                let ghost loans0 = self@.loans;
                if n >= self.loans.len() {
                    return false;
                }
                assert(loans0[n as int] == loan_view(self.loans@[n as int]));
                if self.loans[n].is_none() {
                    return false;
                }
                self.loans.set(n, None);
                assert(self@.loans =~= loans0.update(n as int, None));
                true
            },
        }
    }

    fn finish_pool_read(&mut self, id: usize) -> (r: bool)
        requires
            old(self).wf(),
        ensures
            final(self).wf(),
            final(self)@ == (LocalView { state: final(self)@.state, ..old(self)@ }),
            r == old(self)@.held(Hold::Pool(id)),
            !r ==> final(self)@ == old(self)@,
            r ==> final(self)@.state == old(self)@.state.read_ended(id as int),
    {
        let ghost s = self.tables@;
        if id >= self.tables.bufs.len() {
            return false;
        }
        assert(s.bufs[id as int] == tables::buffer_view(self.tables.bufs@[id as int]));
        let b = match self.tables.bufs[id] {
            Some(b) => b,
            None => return false,
        };
        if b.readers == 0 {
            return false;
        }
        proof {
            assert(self.tables.bufs@.len() == self.tables.bufs.len());
            assert(s.live(id as int));
            writes::lemma_read_ended(s, id as int);
            queue::lemma_read_ended_lined_up(s, id as int);
        }
        if b.readers == 1 && b.keeper == Keeper::Readers {
            self.tables.give_back(id);
        } else {
            self.tables.bufs.set(id, Some(Buffer { readers: b.readers - 1, ..b }));
            assert(self.tables@.bufs =~= s.read_ended(id as int).bufs);
        }
        true
    }

    /// Whether a read of memory that was lent from a region is in flight. Once the
    /// region is retired no further one begins, and the memory may go when this
    /// is false.
    pub fn region_busy(&self, id: u64) -> (r: bool)
        ensures
            r == self@.reading(id),
    {
        for n in 0..self.loans.len()
            invariant
                forall|j: int|
                    0 <= j < n ==> !((#[trigger] self@.loans[j]) is Some
                        && self@.loans[j]->0.contains(id)),
        {
            assert(self@.loans[n as int] == loan_view(self.loans@[n as int]));
            if let Some(regions) = &self.loans[n] {
                if state::holds_id(regions, id) {
                    return true;
                }
            }
        }
        false
    }

    // ---- publish, stat ----

    /// Register user memory as an `External` replica of an existing slot.
    pub fn publish(&mut self, key: Key, op: &OpPublish<'_>) -> (r: Result<(), Error>)
        requires
            old(self).wf(),
        ensures
            final(self).wf(),
            final(self)@ == (LocalView {
                state: old(self)@.state.published(key@, op@),
                ..old(self)@
            }),
            error::result_view(r) == old(self)@.state.publish_result(key@, op@),
    {
        let ghost s = self.tables@;
        let (device, total) = match op.validate() {
            Err(e) => return Err(e),
            Ok(v) => v,
        };
        let at = match self.tables.objects.find(&key) {
            Some(at) => at,
            None => return Err(
                Error::new(ErrorKind::NotFound, "no such key").with_context(
                    "key",
                    key.debug_text(),
                ),
            ),
        };
        let idx: usize = op.slot.0 as usize;
        let obj = self.tables.objects.at(at);
        assert(s.objects[key@] == obj@);
        assert(s.objects.contains_key(key@));
        assert(obj@.slots.len() == obj@.spec.slots.len());
        if idx >= obj.spec.slots.len() {
            return Err(
                Error::new(ErrorKind::NotFound, "no such slot").with_context(
                    "slot",
                    decimal_string(op.slot.0 as u64),
                ),
            );
        }
        let expected: u64 = obj.spec.slots[idx].len;
        assert(expected == obj@.spec.slots[idx as int].len);
        if expected != total {
            return Err(
                Error::new(
                    ErrorKind::InvalidInput,
                    "published length differs from slot length",
                ).with_context("slot", decimal_string(op.slot.0 as u64)).with_context(
                    "len",
                    decimal_string(total),
                ).with_context("expected", decimal_string(expected)),
            );
        }
        assert(op@.src[0] == op.src@[0]@);
        let mut segs: Vec<(u64, u64)> = Vec::new();
        let mut regions: Vec<u64> = Vec::new();
        for i in 0..op.src.len()
            invariant
                segs@ == region::segments(op@.src).take(i as int),
                regions@ == model::region_ids(op@.src).take(i as int),
        {
            assert(op@.src[i as int] == op.src@[i as int]@);
            segs.push((op.src[i].as_ptr(), op.src[i].len));
            regions.push(op.src[i].region.id());
            assert(segs@ =~= region::segments(op@.src).take(i + 1));
            assert(regions@ =~= model::region_ids(op@.src).take(i + 1));
        }
        assert(segs@ =~= region::segments(op@.src));
        assert(regions@ =~= model::region_ids(op@.src));
        let row = ReplicaRow {
            device,
            tier: Tier::External,
            misplaced: false,
            data: Backing::External { segs, regions },
        };
        let ghost replica = row@;
        let obj = self.tables.objects.at_mut(at);
        let ghost obj0 = *obj;
        obj.slots[idx].replicas.push(row);
        let ghost obj1 = *obj;
        proof {
            ops::law_iovs_pass_exactly_if_sound(op@.src, None);
            assert(obj1.slots@[idx as int]@.replicas =~= obj0.slots@[idx as int]@.replicas.push(
                replica,
            ));
            assert(obj1@.slots =~= obj0@.slots.update(
                idx as int,
                LocalSlot {
                    replicas: obj0@.slots[idx as int].replicas.push(replica),
                    ..obj0@.slots[idx as int]
                },
            ));
            writes::lemma_published(s, key@, op@);
            queue::lemma_published_lined_up(s, key@, op@);
            assert(self.tables@.objects =~= s.published(key@, op@).objects);
        }
        Ok(())
    }

    pub fn stat(&self, keys: &[Key]) -> (r: Vec<Option<ObjectInfo>>)
        requires
            self.wf(),
        ensures
            r@.len() == keys@.len(),
            forall|i: int|
                0 <= i < keys@.len() ==> memory::info_view(#[trigger] r@[i]) == self@.state.info(
                    self@.info.node,
                    keys@[i]@,
                ),
    {
        let mut out: Vec<Option<ObjectInfo>> = Vec::new();
        for i in 0..keys.len()
            invariant
                self.wf(),
                out@.len() == i,
                forall|j: int|
                    0 <= j < i ==> memory::info_view(#[trigger] out@[j]) == self@.state.info(
                        self@.info.node,
                        keys@[j]@,
                    ),
        {
            let info = match self.tables.objects.find(&keys[i]) {
                Some(at) => {
                    let obj = self.tables.objects.at(at);
                    assert(self@.state.objects.contains_key(keys@[i as int]@));
                    assert(self@.state.objects[keys@[i as int]@] == obj@);
                    Some(self.object_info(obj, &keys[i]))
                },
                None => None,
            };
            out.push(info);
        }
        out
    }

    fn object_info(&self, obj: &ObjectRow, key: &Key) -> (r: ObjectInfo)
        requires
            self@.state.objects.contains_key(key@),
            self@.state.objects[key@] == obj@,
            obj@.slots.len() == obj@.spec.slots.len(),
        ensures
            Some(r@) == self@.state.info(self@.info.node, key@),
    {
        let ghost node = self@.info.node;
        let ghost goal = self@.state.info(node, key@)->0;
        let mut slots: Vec<SlotInfo> = Vec::new();
        for i in 0..obj.slots.len()
            invariant
                node == self@.info.node,
                self@.state.objects.contains_key(key@),
                self@.state.objects[key@] == obj@,
                goal == self@.state.info(node, key@)->0,
                obj@.slots.len() == obj@.spec.slots.len(),
                types::slot_infos_view(slots@) == goal.slots.take(i as int),
        {
            let ghost before = types::slot_infos_view(slots@);
            let ghost slot = obj@.slots[i as int].replicas;
            assert(obj@.slots[i as int] == obj.slots@[i as int]@);
            let from = &obj.slots[i].replicas;
            let mut replicas: Vec<Replica> = Vec::new();
            let ghost want = goal.slots[i as int].replicas;
            for j in 0..from.len()
                invariant
                    node == self@.info.node,
                    slot == tables::replica_row_views(from@),
                    want == ledger::local_slot_info(
                        node,
                        obj@.spec.slots[i as int].len,
                        slot,
                    ).replicas,
                    replicas@ == want.take(j as int),
            {
                let row = &from[j];
                assert(slot[j as int] == row@);
                replicas.push(
                    Replica {
                        location: Location {
                            node: self.info.node,
                            device: row.device,
                            tier: row.tier,
                        },
                        misplaced: row.misplaced,
                    },
                );
                assert(replicas@ =~= want.take(j + 1));
            }
            assert(replicas@ =~= want);
            assert(obj@.spec.slots[i as int] == obj.spec.slots@[i as int]@);
            slots.push(SlotInfo { len: obj.spec.slots[i].len, replicas });
            assert(types::slot_infos_view(slots@) =~= before.push(goal.slots[i as int]));
            assert(types::slot_infos_view(slots@) =~= goal.slots.take(i + 1));
        }
        assert(types::slot_infos_view(slots@) =~= goal.slots);
        ObjectInfo { retention: obj.spec.retention, slots }
    }

    // ---- lifecycle ----

    pub fn remove(&mut self, keys: &[Key])
        requires
            old(self).wf(),
        ensures
            final(self).wf(),
            final(self)@ == (LocalView {
                state: old(self)@.state.removed_all(memory::key_views(keys@), keys@.len()),
                ..old(self)@
            }),
    {
        let ghost s = self.tables@;
        let ghost views = memory::key_views(keys@);
        for i in 0..keys.len()
            invariant
                views == memory::key_views(keys@),
                self.wf(),
                self@ == (LocalView { state: self@.state, ..old(self)@ }),
                self@.state == s.removed_all(views, i as nat),
        {
            assert(views[i as int] == keys@[i as int]@);
            self.remove_one(&keys[i]);
        }
    }

    fn remove_one(&mut self, key: &Key)
        requires
            old(self).wf(),
        ensures
            final(self).wf(),
            final(self)@ == (LocalView {
                state: old(self)@.state.removed(key@),
                ..old(self)@
            }),
    {
        let ghost s = self.tables@;
        proof {
            assert(self.tables.bufs@.len() == self.tables.bufs.len());
            writes::lemma_removed(s, key@);
            queue::lemma_removed_lined_up(s, key@);
        }
        if let Some(at) = self.tables.objects.find(key) {
            let obj = self.tables.objects.at(at);
            assert(s.objects.contains_key(key@));
            assert(s.objects[key@] == obj@);
            let ids = obj.ids();
            let ghost slots = obj@.slots;
            let _ = self.tables.objects.remove_at(at);
            let ghost m = LocalState { objects: s.objects.remove(key@), ..s };
            assert(self.tables@.objects =~= m.objects);
            assert(self.tables@ =~= m);
            proof {
                steps::lemma_table_frame(s, m);
                writes::lemma_object_ids_distinct(s, key@, slots.len());
                assert forall|x: int| 0 <= x < ids@.len() implies m.live(
                    #[trigger] ids@[x] as int,
                ) by {
                    let at = writes::lemma_object_ids(s, key@, slots.len(), x);
                    assert(safety::has(s, key@, at.0, at.1));
                    assert(s.live(ids@[x] as int));
                }
            }
            self.tables.let_go_all(&ids);
            self.tables.sweep();
        }
    }

    /// Remove every object whose key starts with `prefix`, in order; returns the
    /// count.
    pub fn remove_prefix(&mut self, prefix: &[u8]) -> (r: u64)
        requires
            old(self).wf(),
        ensures
            final(self).wf(),
            exists|keys: Seq<Seq<u8>>|
                #![trigger is_stretch(old(self)@.state, prefix@, keys)]
                is_stretch(old(self)@.state, prefix@, keys) && keys.len() == r && final(self)@ == (
                LocalView {
                    state: old(self)@.state.removed_all(keys, keys.len()),
                    ..old(self)@
                }),
    {
        let ghost s = self.tables@;
        let ghost all = self.tables.objects.keys();
        proof {
            self.tables.objects.lemma_keys();
        }
        let (first, n) = self.tables.objects.prefix_range(prefix);
        let mut keys: Vec<Key> = Vec::new();
        let ghost gone = all.subrange(first as int, first + n);
        let total: usize = self.tables.objects.len();
        for j in 0..n
            invariant
                total == all.len(),
                all == self.tables.objects.keys(),
                first + n <= all.len(),
                gone == all.subrange(first as int, first + n),
                memory::key_views(keys@) == gone.take(j as int),
        {
            let ghost before = memory::key_views(keys@);
            keys.push(self.tables.objects.key_at(first + j).clone());
            assert(memory::key_views(keys@) =~= before.push(gone[j as int]));
            assert(memory::key_views(keys@) =~= gone.take(j + 1));
        }
        assert(memory::key_views(keys@) =~= gone);
        proof {
            assert(is_stretch(s, prefix@, gone)) by {
                assert forall|k: Seq<u8>| #[trigger] gone.contains(k) <==> s.objects.contains_key(k)
                    && types::starts_with(k, prefix@) by {
                    if gone.contains(k) {
                        let c = gone.index_of(k);
                        assert(all[first + c] == k);
                    }
                    if s.objects.contains_key(k) && types::starts_with(k, prefix@) {
                        assert(self.tables.objects@.contains_key(k));
                        let c = choose|c: int| 0 <= c < all.len() && #[trigger] all[c] == k;
                        assert(gone[c - first] == k);
                    }
                }
                assert forall|a: int, b: int| 0 <= a < b < gone.len() implies #[trigger] gone[a]
                    != #[trigger] gone[b] by {
                    assert(all[first + a] != all[first + b]);
                }
            }
        }
        self.remove(keys.as_slice());
        n as u64
    }

    /// Drop every `External` replica published from a region. To be called when
    /// the region goes.
    pub fn retire_region(&mut self, region_id: u64)
        requires
            old(self).wf(),
        ensures
            final(self).wf(),
            final(self)@ == (LocalView {
                state: old(self)@.state.retired(region_id),
                ..old(self)@
            }),
    {
        let ghost s = self.tables@;
        let ghost t = s.retired(region_id);
        let ghost keys = self.tables.objects.keys();
        proof {
            writes::lemma_retired(s, region_id);
            queue::lemma_retired_lined_up(s, region_id);
            self.tables.objects.lemma_keys();
        }
        let n: usize = self.tables.objects.len();
        for i in 0..n
            invariant
                n == keys.len(),
                self.tables.objects.wf(),
                self.tables.objects.keys() == keys,
                self.tables.pools == old(self).tables.pools,
                self.tables.bufs == old(self).tables.bufs,
                self.tables.runs == old(self).tables.runs,
                self.info == old(self).info,
                self.topo == old(self).topo,
                self.gpus == old(self).gpus,
                self.loans == old(self).loans,
                s == old(self).tables@,
                t == s.retired(region_id),
                self.tables@.objects.dom() == s.objects.dom(),
                forall|a: int, b: int|
                    0 <= a < b < keys.len() ==> #[trigger] keys[a] != #[trigger] keys[b],
                forall|j: int| 0 <= j < n ==> s.objects.contains_key(#[trigger] keys[j]),
                forall|j: int|
                    0 <= j < i ==> self.tables@.objects[#[trigger] keys[j]] == t.objects[keys[j]],
                forall|j: int|
                    i <= j < n ==> self.tables@.objects[#[trigger] keys[j]] == s.objects[keys[j]],
        {
            let ghost before = self.tables@.objects;
            let ghost m0 = self.tables.objects@;
            let ghost k = keys[i as int];
            assert(s.objects.contains_key(k));
            assert(before[k] == s.objects[k]);
            self.tables.objects.at_mut(i).drop_region(region_id);
            assert(self.tables@.objects =~= before.insert(k, t.objects[k])) by {
                assert(m0[k]@ == before[k]);
                assert(self.tables.objects@[k]@ == t.objects[k]);
            }
            assert(self.tables@.objects.dom() =~= s.objects.dom());
        }
        proof {
            assert forall|k: Seq<u8>| #[trigger]
                s.objects.contains_key(k) implies self.tables@.objects[k] == t.objects[k] by {
                assert(old(self).tables.objects@.contains_key(k));
                let j = choose|j: int| 0 <= j < keys.len() && #[trigger] keys[j] == k;
                assert(keys[j] == k);
            }
            assert(self.tables@.objects =~= t.objects);
        }
    }
}

pub struct LocalBuilder {
    node: NodeId,
    dram: Vec<(u16, usize)>,
    gpus: Option<Vec<u16>>,
}

pub struct LocalBuilderView {
    pub node: NodeId,
    pub dram: Seq<(u16, usize)>,
    pub gpus: Option<Seq<u16>>,
}

impl View for LocalBuilder {
    type V = LocalBuilderView;

    closed spec fn view(&self) -> LocalBuilderView {
        LocalBuilderView {
            node: self.node,
            dram: self.dram@,
            gpus: match self.gpus {
                Some(g) => Some(g@),
                None => None,
            },
        }
    }
}

/// A pool of which everything is free.
pub open spec fn fresh_pool(numa: u16, base: u64, bytes: usize) -> LocalPool {
    LocalPool {
        pinned: PinnedView {
            numa,
            base,
            len: pinned::rounded(bytes as nat),
            free: if bytes == 0 {
                Seq::empty()
            } else {
                seq![(0usize, pinned::rounded(bytes as nat) as usize)]
            },
        },
        fifo: Seq::empty(),
    }
}

/// The pools of the first `n` reservations, mapped at the addresses given: where
/// a node is named twice, the later one holds.
pub open spec fn fresh_pools(dram: Seq<(u16, usize)>, bases: Seq<u64>, n: nat) -> Map<u16, LocalPool>
    decreases n,
{
    if n == 0 {
        Map::empty()
    } else {
        fresh_pools(dram, bases, (n - 1) as nat).insert(
            dram[n - 1].0,
            fresh_pool(dram[n - 1].0, bases[n - 1], dram[n - 1].1),
        )
    }
}

pub open spec fn unknown_numa(numa: u16) -> ErrorView {
    ErrorView::new(ErrorKind::InvalidInput, "unknown NUMA node"@).with_context(
        "numa"@,
        text::decimal(numa as nat),
    )
}

/// The refusal of the first of the first `n` reservations whose node is not
/// known.
pub open spec fn numa_refusal(dram: Seq<(u16, usize)>, known: Seq<u16>, n: nat) -> Option<ErrorView>
    decreases n,
{
    if n == 0 {
        None
    } else {
        match numa_refusal(dram, known, (n - 1) as nat) {
            Some(e) => Some(e),
            None => if known.contains(dram[n - 1].0) {
                None
            } else {
                Some(unknown_numa(dram[n - 1].0))
            },
        }
    }
}

/// Whether a NUMA node is known.
pub fn check_numa(topo: &Topology, numa: u16) -> (r: Result<(), Error>)
    ensures
        error::result_view(r) == if topo@.numa_nodes.contains(numa) {
            Ok::<(), ErrorView>(())
        } else {
            Err::<(), ErrorView>(unknown_numa(numa))
        },
{
    for i in 0..topo.numa_nodes.len()
        invariant
            forall|j: int| 0 <= j < i ==> topo.numa_nodes@[j] != numa,
    {
        if topo.numa_nodes[i] == numa {
            assert(topo@.numa_nodes[i as int] == numa);
            return Ok(());
        }
    }
    Err(
        Error::new(ErrorKind::InvalidInput, "unknown NUMA node").with_context(
            "numa",
            decimal_string(numa as u64),
        ),
    )
}

impl Default for LocalBuilder {
    fn default() -> (r: Self)
        ensures
            r@ == (LocalBuilderView { node: NodeId(0), dram: Seq::empty(), gpus: None }),
    {
        Self::new()
    }
}

impl LocalBuilder {
    pub fn new() -> (r: Self)
        ensures
            r@ == (LocalBuilderView { node: NodeId(0), dram: Seq::empty(), gpus: None }),
    {
        Self { node: NodeId(0), dram: Vec::new(), gpus: None }
    }

    pub fn node(self, node: NodeId) -> (r: Self)
        ensures
            r@ == (LocalBuilderView { node, ..self@ }),
    {
        Self { node, ..self }
    }

    /// Reserve a pinned DRAM pool of `bytes` on NUMA node `numa`.
    pub fn dram(self, numa: u16, bytes: usize) -> (r: Self)
        ensures
            r@ == (LocalBuilderView { dram: self@.dram.push((numa, bytes)), ..self@ }),
    {
        let mut b = self;
        b.dram.push((numa, bytes));
        b
    }

    /// Restrict to these GPU indices (default: all visible).
    pub fn gpus(self, gpus: Vec<u16>) -> (r: Self)
        ensures
            r@ == (LocalBuilderView { gpus: Some(gpus@), ..self@ }),
    {
        Self { gpus: Some(gpus), ..self }
    }

    /// The reservations, in the order in which they were asked for.
    pub fn reservations(&self) -> (r: &[(u16, usize)])
        ensures
            r@ == self@.dram,
    {
        self.dram.as_slice()
    }

    /// The GPUs to open, of `visible` ones.
    pub fn gpu_indices(&self, visible: u16) -> (r: Vec<u16>)
        ensures
            r@ == match self@.gpus {
                Some(g) => g,
                None => Seq::new(visible as nat, |i: int| i as u16),
            },
    {
        match &self.gpus {
            Some(g) => vstd::slice::slice_to_vec(g.as_slice()),
            None => {
                let mut out: Vec<u16> = Vec::new();
                for i in 0..visible
                    invariant
                        out@ == Seq::new(i as nat, |j: int| j as u16),
                {
                    out.push(i);
                    assert(out@ =~= Seq::new((i + 1) as nat, |j: int| j as u16));
                }
                out
            },
        }
    }

    /// The backend over memory that is mapped already, one stretch per
    /// reservation, with the GPUs that were opened.
    pub fn build(self, topo: Topology, gpus: Vec<u16>, bases: Vec<u64>) -> (r: Result<Local, Error>)
        requires
            bases@.len() == self@.dram.len(),
            forall|i: int|
                0 <= i < bases@.len() ==> pinned::rounded((#[trigger] self@.dram[i]).1 as nat)
                    <= usize::MAX && bases@[i] + pinned::rounded(self@.dram[i].1 as nat) <= u64::MAX + 1,
        ensures
            match numa_refusal(self@.dram, topo@.numa_nodes, self@.dram.len()) {
                Some(e) => r is Err && r->Err_0@ == e,
                None => r is Ok && r->Ok_0.wf() && ({
                    let view = r->Ok_0@;
                    &&& view.info == (AccessInfoView {
                        name: "local"@,
                        node: self@.node,
                        devices: view.devices(),
                        capability: types::unlimited(true),
                    })
                    &&& view.topo == topo@
                    &&& view.gpus == gpus@
                    &&& topology::lists_keys(view.order, view.state.pools)
                    &&& view.state == (LocalState {
                        objects: Map::empty(),
                        pools: fresh_pools(self@.dram, bases@, self@.dram.len()),
                        bufs: Seq::empty(),
                        runs: Seq::empty(),
                    })
                    &&& view.loans.len() == 0
                }),
            },
    {
        let objects: Index<ObjectRow> = Index::new();
        let mut tables = Tables {
            objects,
            pools: Vec::new(),
            bufs: Vec::new(),
            runs: Vec::new(),
        };
        let ghost empty = LocalState {
            objects: Map::empty(),
            pools: Map::empty(),
            bufs: Seq::empty(),
            runs: Seq::empty(),
        };
        assert(tables@ =~= empty);
        for i in 0..self.dram.len()
            invariant
                bases@.len() == self@.dram.len(),
                forall|i: int|
                    0 <= i < bases@.len() ==> pinned::rounded((#[trigger] self@.dram[i]).1 as nat)
                        <= usize::MAX && bases@[i] + pinned::rounded(self@.dram[i].1 as nat) <= u64::MAX
                        + 1,
                numa_refusal(self@.dram, topo@.numa_nodes, i as nat) is None,
                tables.wf(),
                tables@ == (LocalState {
                    pools: fresh_pools(self@.dram, bases@, i as nat),
                    ..empty
                }),
        {
            let (numa, bytes) = self.dram[i];
            assert(self@.dram[i as int] == (numa, bytes));
            match check_numa(&topo, numa) {
                Err(e) => {
                    proof {
                        lemma_refusal_stays(
                            self@.dram,
                            topo@.numa_nodes,
                            (i + 1) as nat,
                            self@.dram.len(),
                        );
                    }
                    return Err(e);
                },
                Ok(_) => {},
            }
            let pool = DramPool {
                pinned: PinnedPool::new(numa, bases[i], bytes),
                fifo: VecDeque::new(),
            };
            assert(pool@.fifo =~= Seq::empty());
            assert(pool@ == fresh_pool(numa, bases@[i as int], bytes));
            tables.add_pool(pool);
            assert(tables@ =~= (LocalState {
                pools: fresh_pools(self@.dram, bases@, (i + 1) as nat),
                ..empty
            }));
        }
        let mut devices: Vec<Device> = Vec::new();
        let ghost order = tables.order();
        for i in 0..tables.pools.len()
            invariant
                order == tables.order(),
                devices@ == Seq::new(i as nat, |j: int| Device::Cpu { numa: order[j] }),
        {
            let numa = tables.pools[i].pinned.numa();
            assert(order[i as int] == numa);
            devices.push(Device::cpu(numa));
            assert(devices@ =~= Seq::new((i + 1) as nat, |j: int| Device::Cpu { numa: order[j] }));
        }
        let ghost cpus = devices@;
        for i in 0..gpus.len()
            invariant
                devices@ == cpus + Seq::new(i as nat, |j: int| Device::Gpu { index: gpus@[j] }),
        {
            devices.push(Device::gpu(gpus[i]));
            assert(devices@ =~= cpus + Seq::new(
                (i + 1) as nat,
                |j: int| Device::Gpu { index: gpus@[j] },
            ));
        }
        let info = AccessInfo {
            name: "local",
            node: self.node,
            devices,
            capability: Capability::all(),
        };
        let loans: Vec<Option<Vec<u64>>> = Vec::new();
        let local = Local { info, topo, gpus, tables, loans };
        proof {
            assert(local@.info.devices =~= local@.devices());
            lemma_fresh(self@.dram, bases@, self@.dram.len());
            lemma_fresh_inv(local.tables@);
            assert(topology::lists_keys(local@.order, local@.state.pools)) by {
                assert forall|k: u16| #[trigger] order.contains(k) <==> local@.state.pools.contains_key(
                k) by {
                    if order.contains(k) {
                        let c = order.index_of(k);
                        tables::lemma_dram_at(local.tables.pools@, c);
                    }
                    if local@.state.pools.contains_key(k) {
                        let c = choose|c: int|
                            0 <= c < local.tables.pools@.len() && (
                            #[trigger] local.tables.pools@[c])@.pinned.numa == k;
                        assert(order[c] == k);
                    }
                }
                assert forall|i: int, j: int| 0 <= i < j < order.len() implies #[trigger] order[i]
                    < #[trigger] order[j] by {
                    assert(local.tables.pools@[i]@.pinned.numa
                        < local.tables.pools@[j]@.pinned.numa);
                }
            }
        }
        Ok(local)
    }
}

proof fn lemma_refusal_stays(dram: Seq<(u16, usize)>, known: Seq<u16>, n: nat, m: nat)
    requires
        n <= m,
        numa_refusal(dram, known, n) is Some,
    ensures
        numa_refusal(dram, known, m) == numa_refusal(dram, known, n),
    decreases m,
{
    if n < m {
        lemma_refusal_stays(dram, known, n, (m - 1) as nat);
    }
}

proof fn lemma_fresh(dram: Seq<(u16, usize)>, bases: Seq<u64>, n: nat)
    requires
        n <= dram.len(),
        bases.len() == dram.len(),
        forall|i: int|
            0 <= i < bases.len() ==> pinned::rounded((#[trigger] dram[i]).1 as nat) <= usize::MAX
                && bases[i] + pinned::rounded(dram[i].1 as nat) <= u64::MAX + 1,
    ensures
        forall|k: u16| #[trigger]
            fresh_pools(dram, bases, n).contains_key(k) ==> ({
                let pool = fresh_pools(dram, bases, n)[k].pinned;
                &&& fresh_pools(dram, bases, n)[k].fifo.len() == 0
                &&& pool.ok()
                &&& pool.numa == k
                &&& forall|x: int| 0 <= x < pool.len ==> #[trigger] pinned::is_free(pool.free, x)
            }),
    decreases n,
{
    if n > 0 {
        lemma_fresh(dram, bases, (n - 1) as nat);
        let (numa, bytes) = dram[n - 1];
        let pool = fresh_pool(numa, bases[n - 1], bytes).pinned;
        assert(pinned::rounded(dram[n - 1].1 as nat) <= usize::MAX);
        pinned::lemma_rounded(bytes as nat);
        assert(pool.ok());
        assert forall|x: int| 0 <= x < pool.len implies #[trigger] pinned::is_free(pool.free, x) by {
            assert(pinned::in_block(pool.free[0], x));
        }
        let before = fresh_pools(dram, bases, (n - 1) as nat);
        let after = fresh_pools(dram, bases, n);
        assert forall|k: u16| #[trigger] after.contains_key(k) implies ({
            let pool = after[k].pinned;
            &&& pool.ok()
            &&& pool.numa == k
            &&& forall|x: int| 0 <= x < pool.len ==> #[trigger] pinned::is_free(pool.free, x)
        }) by {
            if k != numa {
                assert(before.contains_key(k));
                assert(after[k] == before[k]);
            }
        }
    }
}

proof fn lemma_fresh_inv(s: LocalState)
    requires
        s.objects == Map::<Seq<u8>, LocalObject>::empty(),
        s.bufs.len() == 0,
        s.runs.len() == 0,
        forall|k: u16| #[trigger]
            s.pools.contains_key(k) ==> ({
                let pool = s.pools[k].pinned;
                &&& s.pools[k].fifo.len() == 0
                &&& pool.ok()
                &&& pool.numa == k
                &&& forall|x: int| 0 <= x < pool.len ==> #[trigger] pinned::is_free(pool.free, x)
            }),
    ensures
        safety::local_inv(s),
        s.lined_up(),
{
    assert forall|n: u16| #[trigger] s.pools.contains_key(n) implies s.queues(
        n,
        s.pools[n].fifo,
    ) by {
        assert forall|e: Entry| #[trigger]
            model::times(s.pools[n].fifo, e) == s.turns_on(e, n) by {}
    }
    assert forall|n: u16, x: int|
        s.pools.contains_key(n) && 0 <= x < s.pools[n].pinned.len implies #[trigger] safety::is_accounted(
        s,
        n,
        x,
    ) by {
        assert(pinned::is_free(s.pools[n].pinned.free, x));
    }
}

impl Local {
    pub fn builder() -> (r: LocalBuilder)
        ensures
            r@ == (LocalBuilderView { node: NodeId(0), dram: Seq::empty(), gpus: None }),
    {
        LocalBuilder::new()
    }
}

/// Whether a list holds the keys under a prefix, each once.
pub open spec fn is_stretch(s: LocalState, prefix: Seq<u8>, keys: Seq<Seq<u8>>) -> bool {
    &&& forall|k: Seq<u8>| #[trigger]
        keys.contains(k) <==> s.objects.contains_key(k) && types::starts_with(k, prefix)
    &&& forall|a: int, b: int| 0 <= a < b < keys.len() ==> #[trigger] keys[a] != #[trigger] keys[b]
}

/// There is one replica to read, whichever way it is looked for.
pub proof fn law_nearest_local_is_unique(
    gpu_numa: Map<u16, u16>,
    dst: Device,
    replicas: Seq<LocalReplica>,
    i: int,
)
    requires
        ledger::is_nearest_local(gpu_numa, dst, replicas, i),
    ensures
        ledger::nearest_local(gpu_numa, dst, replicas) == replicas[i],
{
    let c = choose|c: int| ledger::is_nearest_local(gpu_numa, dst, replicas, c);
    assert(c == i) by {
        if c < i {
            assert(ledger::nearer_local(gpu_numa, dst, replicas[i], replicas[c]));
        }
        if i < c {
            assert(ledger::nearer_local(gpu_numa, dst, replicas[c], replicas[i]));
        }
    }
}

/// An allocation lies within the addresses there are.
proof fn lemma_buf_addressable(s: LocalState, id: int)
    requires
        safety::table_ok(s),
        s.live(id),
    ensures
        s.bufs[id]->0.buf.addr + s.bufs[id]->0.buf.len <= u64::MAX + 1,
{
    assert(safety::buf_ok(s, id));
    let b = s.bufs[id]->0.buf;
    assert(s.pools[b.numa].pinned.ok());
}

proof fn lemma_committed_runs(s: LocalState, key: Seq<u8>, i: nat, run: usize, spots: Seq<Spot>)
    requires
        s.holds(key, i as int, run),
        forall|x: int|
            0 <= x < spots.len() ==> s.live((#[trigger] spots[x]).2 as int)
                && s.pools.contains_key(spots[x].0),
        forall|x: int, y: int|
            0 <= x < y < spots.len() ==> (#[trigger] spots[x]).2 != (#[trigger] spots[y]).2,
    ensures
        s.committed(key, i, run, spots).0.runs == s.runs,
{
    let slot = s.objects[key].slots[i as int];
    let after = LocalSlot { replicas: slot.replicas + ledger::spot_replicas(spots), writing: None };
    let a = s.with_slot(key, i as int, after);
    assert forall|x: int| 0 <= x < spots.len() implies a.live((#[trigger] spots[x]).2 as int) by {
        assert(s.live(spots[x].2 as int));
    }
    writes::lemma_kept(a, spots, spots.len());
    let b = a.kept(spots, spots.len());
    assert forall|x: int| 0 <= x < spots.len() implies b.pools.contains_key(
        (#[trigger] spots[x]).0,
    ) by {
        assert(s.pools.contains_key(spots[x].0));
    }
    writes::lemma_queued(b, spots, key, i, spots.len());
}

} // verus!
