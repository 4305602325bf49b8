//! User-facing handle. Validates requests against the backend's `Capability`
//! before delegating; composes `get_many`.
use vstd::prelude::*;

use crate::access;
use crate::access::Access;
use crate::error;
use crate::error::{Error, ErrorKind, ErrorView};
use crate::ops;
use crate::ops::{
    OpGet, OpGetView, OpPublish, OpPublishView, OpPut, OpPutView, PutSlot, PutSlotView, RpGet,
    RpPut,
};
use crate::region;
use crate::region::{HostMemory, Iov, MemoryRegion, RegionIds, RegionView};
use crate::services::memory;
use crate::text;
use crate::text::decimal_string;
use crate::types::{
    AccessInfo, Capability, Device, Key, ObjectInfo, ObjectInfoView, Placement, Retention, SlotIdx,
};

verus! {

pub open spec fn unsupported_view(what: Seq<char>) -> ErrorView {
    ErrorView::new(ErrorKind::Unsupported, "backend does not support "@ + what)
}

fn unsupported(what: &str) -> (r: Error)
    ensures
        r@ == unsupported_view(what@),
{
    let mut message = String::new();
    message.append("backend does not support ");
    message.append(what);
    Error::with_message(ErrorKind::Unsupported, message)
}

/// The refusal of a gather/scatter list for its number of segments.
pub open spec fn too_many_iovs(cap: Capability, n: nat) -> Option<ErrorView> {
    if cap.max_iov is Some && n > cap.max_iov->0 {
        Some(
            unsupported_view("too many iov segments"@).with_context(
                "max_iov"@,
                text::decimal(cap.max_iov->0 as nat),
            ),
        )
    } else {
        None
    }
}

/// The refusal of one slot of a request.
pub open spec fn slot_refusal(cap: Capability, slot: PutSlotView, i: nat) -> Option<ErrorView> {
    if slot.spec.placement is Strict && !cap.placement_strict {
        Some(unsupported_view("placement strict"@).with_context("slot"@, text::decimal(i)))
    } else if slot.spec.placement is Each && !cap.placement_each {
        Some(unsupported_view("placement each"@).with_context("slot"@, text::decimal(i)))
    } else if cap.max_slot_len is Some && slot.spec.len > cap.max_slot_len->0 {
        Some(
            unsupported_view("slot too large"@).with_context("slot"@, text::decimal(i)).with_context(
                "max_slot_len"@,
                text::decimal(cap.max_slot_len->0 as nat),
            ),
        )
    } else {
        too_many_iovs(cap, slot.src.len())
    }
}

/// The refusal of the first of the first `n` slots that is refused.
pub open spec fn slots_refusal(cap: Capability, op: OpPutView, n: nat) -> Option<ErrorView>
    decreases n,
{
    if n == 0 {
        None
    } else {
        match slots_refusal(cap, op, (n - 1) as nat) {
            Some(e) => Some(e),
            None => slot_refusal(cap, op.slots[n - 1], (n - 1) as nat),
        }
    }
}

/// Why memory of a device cannot be registered with a backend of this
/// capability.
pub open spec fn register_refusal(cap: Capability, device: Device) -> Option<ErrorView> {
    if device is Gpu && !cap.gpu_memory {
        Some(unsupported_view("gpu memory"@))
    } else {
        None
    }
}

/// Why a `remove_prefix` does not reach a backend of this capability.
pub open spec fn remove_prefix_refusal(cap: Capability) -> Option<ErrorView> {
    if !cap.remove_prefix {
        Some(unsupported_view("remove_prefix"@))
    } else {
        None
    }
}

/// Why a `put` does not reach a backend of this capability.
pub open spec fn put_refusal(cap: Capability, op: OpPutView) -> Option<ErrorView> {
    if op.error() is Some {
        op.error()
    } else if op.retention == Retention::Explicit && !cap.retention_explicit {
        Some(unsupported_view("retention explicit"@))
    } else if cap.max_slots is Some && op.slots.len() > cap.max_slots->0 {
        Some(
            unsupported_view("too many slots"@).with_context(
                "max_slots"@,
                text::decimal(cap.max_slots->0 as nat),
            ),
        )
    } else {
        slots_refusal(cap, op, op.slots.len())
    }
}

/// Why a `get` does not reach a backend of this capability.
pub open spec fn get_refusal(cap: Capability, op: OpGetView) -> Option<ErrorView> {
    match ops::checked_iovs(op.dst, None) {
        Err(e) => Some(e),
        Ok(_) => too_many_iovs(cap, op.dst.len()),
    }
}

/// Why a `publish` does not reach a backend of this capability.
pub open spec fn publish_refusal(cap: Capability, op: OpPublishView) -> Option<ErrorView> {
    if !cap.publish {
        Some(unsupported_view("publish"@))
    } else {
        match ops::checked_iovs(op.src, None) {
            Err(e) => Some(e),
            Ok(_) => too_many_iovs(cap, op.src.len()),
        }
    }
}

/// Why a `stat` of `n` keys does not reach a backend of this capability.
pub open spec fn stat_refusal(cap: Capability, n: nat) -> Option<ErrorView> {
    if cap.max_stat_batch is Some && n > cap.max_stat_batch->0 {
        Some(
            unsupported_view("stat batch too large"@).with_context(
                "max_stat_batch"@,
                text::decimal(cap.max_stat_batch->0 as nat),
            ),
        )
    } else {
        None
    }
}

/// An answer whose error names the operation, unless it names one already.
pub open spec fn tagged<T>(r: Result<T, ErrorView>, operation: Seq<char>) -> Result<T, ErrorView> {
    match r {
        Ok(v) => Ok(v),
        Err(e) => Err(e.with_operation(operation)),
    }
}

proof fn lemma_refusal_stays(cap: Capability, op: OpPutView, n: nat, m: nat)
    requires
        n <= m,
        slots_refusal(cap, op, n) is Some,
    ensures
        slots_refusal(cap, op, m) == slots_refusal(cap, op, n),
    decreases m,
{
    if n < m {
        lemma_refusal_stays(cap, op, n, (m - 1) as nat);
    }
}

// ---- what reaches a backend ----

/// Whether a list of `n` segments may reach a backend of this capability.
pub fn check_iov_count(cap: &Capability, n: usize) -> (r: Result<(), Error>)
    ensures
        error::result_view(r) == ops::verdict(too_many_iovs(*cap, n as nat)),
{
    if let Some(max) = cap.max_iov {
        if n as u64 > max as u64 {
            return Err(
                unsupported("too many iov segments").with_context(
                    "max_iov",
                    decimal_string(max as u64),
                ),
            );
        }
    }
    Ok(())
}

/// Whether memory of a device may be registered with a backend of this
/// capability.
pub fn check_register(cap: &Capability, device: Device) -> (r: Result<(), Error>)
    ensures
        error::result_view(r) == ops::verdict(register_refusal(*cap, device)),
{
    if device.is_gpu() && !cap.gpu_memory {
        return Err(unsupported("gpu memory"));
    }
    Ok(())
}

/// Whether a `put` may reach a backend of this capability.
pub fn check_put(cap: &Capability, op: &OpPut<'_>) -> (r: Result<(), Error>)
    ensures
        error::result_view(r) == ops::verdict(put_refusal(*cap, op@)),
{
    match op.validate() {
        Err(e) => return Err(e),
        Ok(_) => {},
    }
    if op.retention == Retention::Explicit && !cap.retention_explicit {
        return Err(unsupported("retention explicit"));
    }
    if let Some(max) = cap.max_slots {
        if op.slots.len() as u64 > max as u64 {
            return Err(
                unsupported("too many slots").with_context(
                    "max_slots",
                    decimal_string(max as u64),
                ),
            );
        }
    }
    for i in 0..op.slots.len()
        invariant
            op@.error() is None,
            !(op@.retention == Retention::Explicit && !cap.retention_explicit),
            !(cap.max_slots is Some && op@.slots.len() > cap.max_slots->0),
            slots_refusal(*cap, op@, i as nat) is None,
    {
        let slot = &op.slots[i];
        assert(op@.slots[i as int] == slot@);
        proof {
            if slot_refusal(*cap, slot@, i as nat) is Some {
                lemma_refusal_stays(*cap, op@, (i + 1) as nat, op@.slots.len());
            }
        }
        match &slot.spec.placement {
            Placement::Strict(_) => if !cap.placement_strict {
                return Err(
                    unsupported("placement strict").with_context(
                        "slot",
                        decimal_string(i as u64),
                    ),
                );
            },
            Placement::Each(_) => if !cap.placement_each {
                return Err(
                    unsupported("placement each").with_context(
                        "slot",
                        decimal_string(i as u64),
                    ),
                );
            },
            _ => {},
        }
        if let Some(max) = cap.max_slot_len {
            if slot.spec.len > max {
                return Err(
                    unsupported("slot too large").with_context(
                        "slot",
                        decimal_string(i as u64),
                    ).with_context("max_slot_len", decimal_string(max)),
                );
            }
        }
        match check_iov_count(cap, slot.src.len()) {
            Err(e) => return Err(e),
            Ok(_) => {},
        }
    }
    Ok(())
}

/// Whether a `get` may reach a backend of this capability.
pub fn check_get(cap: &Capability, op: &OpGet<'_>) -> (r: Result<(), Error>)
    ensures
        error::result_view(r) == ops::verdict(get_refusal(*cap, op@)),
{
    match op.validate() {
        Err(e) => return Err(e),
        Ok(_) => {},
    }
    check_iov_count(cap, op.dst.len())
}

/// Whether a `publish` may reach a backend of this capability.
pub fn check_publish(cap: &Capability, op: &OpPublish<'_>) -> (r: Result<(), Error>)
    ensures
        error::result_view(r) == ops::verdict(publish_refusal(*cap, op@)),
{
    if !cap.publish {
        return Err(unsupported("publish"));
    }
    match op.validate() {
        Err(e) => return Err(e),
        Ok(_) => {},
    }
    check_iov_count(cap, op.src.len())
}

/// Whether a `stat` of `n` keys may reach a backend of this capability.
pub fn check_stat(cap: &Capability, n: usize) -> (r: Result<(), Error>)
    ensures
        error::result_view(r) == ops::verdict(stat_refusal(*cap, n as nat)),
{
    if let Some(max) = cap.max_stat_batch {
        if n as u64 > max as u64 {
            return Err(
                unsupported("stat batch too large").with_context(
                    "max_stat_batch",
                    decimal_string(max as u64),
                ),
            );
        }
    }
    Ok(())
}

/// Whether a `remove_prefix` may reach a backend of this capability.
pub fn check_remove_prefix(cap: &Capability) -> (r: Result<(), Error>)
    ensures
        error::result_view(r) == ops::verdict(remove_prefix_refusal(*cap)),
{
    if !cap.remove_prefix {
        return Err(unsupported("remove_prefix"));
    }
    Ok(())
}

// ---- the handle ----

pub struct Store<A> {
    access: A,
    info: AccessInfo,
}

impl<A: Access> Store<A> {
    /// The backend.
    pub closed spec fn access(&self) -> A {
        self.access
    }

    pub closed spec fn wf(&self) -> bool {
        &&& self.access.valid()
        &&& self.info@ == self.access.info_view()
    }

    /// The backend of a well-formed store is valid.
    pub proof fn lemma_wf(&self)
        requires
            self.wf(),
        ensures
            self.access().valid(),
    {
    }

    pub open spec fn capability(&self) -> Capability {
        self.access().info_view().capability
    }

    pub fn new(access: A) -> (r: Self)
        requires
            access.valid(),
        ensures
            r.wf(),
            r.access() == access,
    {
        let info = access.info();
        Self { access, info }
    }

    pub fn info(&self) -> (r: &AccessInfo)
        requires
            self.wf(),
        ensures
            r@ == self.access().info_view(),
    {
        &self.info
    }

    /// The backend.
    pub fn servicer(&self) -> (r: &A)
        ensures
            *r == self.access(),
    {
        &self.access
    }

    /// Give the backend back.
    pub fn into_inner(self) -> (r: A)
        ensures
            r == self.access(),
    {
        self.access
    }

    // ---- memory ----

    /// Register caller memory so `Iov`s can point into it: `len` bytes from
    /// `addr` on, accessible according to `device`, which outlive the region.
    pub fn register(&self, ids: &mut RegionIds, addr: u64, len: u64, device: Device) -> (r: Result<
        MemoryRegion,
        Error,
    >)
        requires
            self.wf(),
        ensures
            device is Gpu && !self.capability().gpu_memory ==> access::region_view(r) == Err::<
                RegionView,
                ErrorView,
            >(unsupported_view("gpu memory"@).with_operation("register"@)) && final(ids)@ == old(
                ids,
            )@,
            !(device is Gpu && !self.capability().gpu_memory) ==> self.access().register_post(
                old(ids)@,
                addr,
                len,
                device,
                final(ids)@,
                access::region_view(r),
            ),
    {
        match check_register(&self.info.capability, device) {
            Err(e) => return Err(e.with_operation("register")),
            Ok(_) => {},
        }
        self.access.register(ids, addr, len, device)
    }

    // ---- put ----

    pub fn put(&mut self, mem: &HostMemory, key: Key, slots: Vec<PutSlot<'_>>) -> (r: Result<
        RpPut,
        Error,
    >)
        requires
            old(self).wf(),
            old(self).access().put_pre(
                mem@,
                key@,
                OpPutView { retention: Retention::Cache, slots: ops::put_slots_view(slots@) },
            ),
        ensures
            final(self).wf(),
            put_done(
                *old(self),
                mem@,
                key@,
                OpPutView { retention: Retention::Cache, slots: ops::put_slots_view(slots@) },
                *final(self),
                memory::reply_view(r),
            ),
    {
        self.put_options(mem, key, OpPut::new(slots))
    }

    /// The builder form of `put`.
    pub fn put_with<'a>(&self, key: Key, slots: Vec<PutSlot<'a>>) -> (r: FuturePut<'a>)
        ensures
            r.key@ == key@,
            r.op@ == (OpPutView { retention: Retention::Cache, slots: ops::put_slots_view(slots@) }),
    {
        FuturePut { key, op: OpPut::new(slots) }
    }

    pub fn put_options(&mut self, mem: &HostMemory, key: Key, op: OpPut<'_>) -> (r: Result<
        RpPut,
        Error,
    >)
        requires
            old(self).wf(),
            old(self).access().put_pre(mem@, key@, op@),
        ensures
            final(self).wf(),
            put_done(*old(self), mem@, key@, op@, *final(self), memory::reply_view(r)),
    {
        match check_put(&self.info.capability, &op) {
            Err(e) => return Err(e.with_operation("put")),
            Ok(_) => {},
        }
        let ghost view = op@;
        match self.access.put(mem, key, op) {
            Ok(rp) => {
                assert(self.access() == self.access);
                assert(old(self).access().put_post(
                    mem@,
                    key@,
                    view,
                    self.access(),
                    Ok::<Seq<Result<(), ErrorView>>, ErrorView>(rp@),
                ));
                Ok(rp)
            },
            Err(e) => {
                assert(old(self).access().put_post(
                    mem@,
                    key@,
                    view,
                    self.access(),
                    Err::<Seq<Result<(), ErrorView>>, ErrorView>(e@),
                ));
                Err(e.with_operation("put"))
            },
        }
    }

    // ---- get ----

    pub fn get(&self, mem: &mut HostMemory, key: Key, slot: SlotIdx, dst: &[Iov<'_>]) -> (r: Result<
        RpGet,
        Error,
    >)
        requires
            self.wf(),
            self.access().get_pre(
                old(mem)@,
                key@,
                OpGetView { slot, src_offset: 0, dst: region::iov_views(dst@) },
            ),
        ensures
            get_done(
                *self,
                old(mem)@,
                key@,
                OpGetView { slot, src_offset: 0, dst: region::iov_views(dst@) },
                final(mem)@,
                error::result_view(r),
            ),
    {
        self.get_options(mem, key, OpGet::new(slot, dst))
    }

    /// The builder form of `get`.
    pub fn get_with<'a>(&self, key: Key, slot: SlotIdx, dst: &'a [Iov<'a>]) -> (r: FutureGet<'a>)
        ensures
            r.key@ == key@,
            r.op@ == (OpGetView { slot, src_offset: 0, dst: region::iov_views(dst@) }),
    {
        FutureGet { key, op: OpGet::new(slot, dst) }
    }

    pub fn get_options(&self, mem: &mut HostMemory, key: Key, op: OpGet<'_>) -> (r: Result<
        RpGet,
        Error,
    >)
        requires
            self.wf(),
            self.access().get_pre(old(mem)@, key@, op@),
        ensures
            get_done(*self, old(mem)@, key@, op@, final(mem)@, error::result_view(r)),
            final(mem)@.dom() == old(mem)@.dom(),
    {
        match check_get(&self.info.capability, &op) {
            Err(e) => return Err(e.with_operation("get")),
            Ok(_) => {},
        }
        let ghost view = op@;
        let ghost before = mem@;
        match self.access.get(mem, key, op) {
            Ok(rp) => {
                assert(self.access().get_post(
                    before,
                    key@,
                    view,
                    mem@,
                    Ok::<RpGet, ErrorView>(rp),
                ));
                Ok(rp)
            },
            Err(e) => {
                assert(self.access().get_post(
                    before,
                    key@,
                    view,
                    mem@,
                    Err::<RpGet, ErrorView>(e@),
                ));
                Err(e.with_operation("get"))
            },
        }
    }

    /// Issue many gets; yields `(index, result)`, one for every request. Each
    /// must be fit to run on whatever memory the ones before it left.
    pub fn get_many(&self, mem: &mut HostMemory, reqs: Vec<(Key, OpGet<'_>)>) -> (r: Vec<
        (usize, Result<RpGet, Error>),
    >)
        requires
            self.wf(),
            forall|i: int, m: Map<u64, u8>|
                0 <= i < reqs@.len() && m.dom() == old(mem)@.dom() ==> #[trigger] self.access().get_pre(
                    m,
                    reqs@[i].0@,
                    reqs@[i].1@,
                ),
        ensures
            r@.len() == reqs@.len(),
            many_done(*self, old(mem)@, reqs@, final(mem)@, r@),
    {
        let ghost mut steps: Seq<Map<u64, u8>> = seq![mem@];
        let ghost all = reqs@;
        let mut rest = reqs;
        let mut out: Vec<(usize, Result<RpGet, Error>)> = Vec::new();
        let n: usize = rest.len();
        for i in 0..n
            invariant
                self.wf(),
                n == all.len(),
                rest@ == all.skip(i as int),
                all == reqs@,
                forall|i: int, m: Map<u64, u8>|
                    0 <= i < all.len() && m.dom() == old(mem)@.dom()
                        ==> #[trigger] self.access().get_pre(m, all[i].0@, all[i].1@),
                mem@.dom() == old(mem)@.dom(),
                out@.len() == i,
                steps.len() == i + 1,
                steps[0] == old(mem)@,
                steps[i as int] == mem@,
                forall|j: int|
                    0 <= j < i ==> {
                        &&& (#[trigger] out@[j]).0 == j
                        &&& get_done(
                            *self,
                            steps[j],
                            all[j].0@,
                            all[j].1@,
                            steps[j + 1],
                            error::result_view(out@[j].1),
                        )
                    },
        {
            let ghost before = mem@;
            let ghost steps0 = steps;
            let ghost out0 = out@;
            assert(rest@[0] == all[i as int]);
            assert(self.access().get_pre(before, all[i as int].0@, all[i as int].1@));
            let (key, op) = rest.remove(0);
            assert(rest@ =~= all.skip(i + 1));
            let result = self.get_options(mem, key, op);
            proof {
                steps = steps.push(mem@);
                assert(mem@.dom() == old(mem)@.dom());
            }
            out.push((i, result));
            assert forall|j: int| 0 <= j < i + 1 implies {
                &&& (#[trigger] out@[j]).0 == j
                &&& get_done(
                    *self,
                    steps[j],
                    all[j].0@,
                    all[j].1@,
                    steps[j + 1],
                    error::result_view(out@[j].1),
                )
            } by {
                if j < i {
                    assert(out@[j] == out0[j]);
                    assert(steps[j] == steps0[j]);
                    assert(steps[j + 1] == steps0[j + 1]);
                }
            }
        }
        assert(many_steps(*self, steps, all, out@));
        out
    }

    // ---- publish ----

    pub fn publish(&mut self, key: Key, slot: SlotIdx, src: &[Iov<'_>]) -> (r: Result<(), Error>)
        requires
            old(self).wf(),
        ensures
            final(self).wf(),
            publish_done(
                *old(self),
                key@,
                OpPublishView { slot, src: region::iov_views(src@) },
                *final(self),
                error::result_view(r),
            ),
    {
        let op = OpPublish::new(slot, src);
        let ghost view = op@;
        match check_publish(&self.info.capability, &op) {
            Err(e) => return Err(e.with_operation("publish")),
            Ok(_) => {},
        }
        match self.access.publish(key, op) {
            Ok(_) => {
                assert(old(self).access().publish_post(
                    key@,
                    view,
                    self.access(),
                    Ok::<(), ErrorView>(()),
                ));
                Ok(())
            },
            Err(e) => {
                assert(old(self).access().publish_post(
                    key@,
                    view,
                    self.access(),
                    Err::<(), ErrorView>(e@),
                ));
                Err(e.with_operation("publish"))
            },
        }
    }

    // ---- metadata / lifecycle ----

    pub fn stat(&self, keys: &[Key]) -> (r: Result<Vec<Option<ObjectInfo>>, Error>)
        requires
            self.wf(),
        ensures
            stat_done(*self, memory::key_views(keys@), access::stat_view(r)),
    {
        match check_stat(&self.info.capability, keys.len()) {
            Err(e) => return Err(e.with_operation("stat")),
            Ok(_) => {},
        }
        match self.access.stat(keys) {
            Ok(infos) => {
                assert(self.access().stat_post(
                    memory::key_views(keys@),
                    Ok::<Seq<Option<ObjectInfoView>>, ErrorView>(memory::info_views(infos@)),
                ));
                Ok(infos)
            },
            Err(e) => {
                assert(self.access().stat_post(
                    memory::key_views(keys@),
                    Err::<Seq<Option<ObjectInfoView>>, ErrorView>(e@),
                ));
                Err(e.with_operation("stat"))
            },
        }
    }

    pub fn remove(&mut self, keys: &[Key]) -> (r: Result<(), Error>)
        requires
            old(self).wf(),
        ensures
            final(self).wf(),
            remove_done(*old(self), memory::key_views(keys@), *final(self), error::result_view(r)),
    {
        match self.access.remove(keys) {
            Ok(_) => {
                assert(old(self).access().remove_post(
                    memory::key_views(keys@),
                    self.access(),
                    Ok::<(), ErrorView>(()),
                ));
                Ok(())
            },
            Err(e) => {
                assert(old(self).access().remove_post(
                    memory::key_views(keys@),
                    self.access(),
                    Err::<(), ErrorView>(e@),
                ));
                Err(e.with_operation("remove"))
            },
        }
    }

    pub fn remove_prefix(&mut self, prefix: &[u8]) -> (r: Result<u64, Error>)
        requires
            old(self).wf(),
        ensures
            final(self).wf(),
            remove_prefix_done(*old(self), prefix@, *final(self), error::result_view(r)),
    {
        match check_remove_prefix(&self.info.capability) {
            Err(e) => return Err(e.with_operation("remove_prefix")),
            Ok(_) => {},
        }
        match self.access.remove_prefix(prefix) {
            Ok(n) => {
                assert(old(self).access().remove_prefix_post(
                    prefix@,
                    self.access(),
                    Ok::<u64, ErrorView>(n),
                ));
                Ok(n)
            },
            Err(e) => {
                assert(old(self).access().remove_prefix_post(
                    prefix@,
                    self.access(),
                    Err::<u64, ErrorView>(e@),
                ));
                Err(e.with_operation("remove_prefix"))
            },
        }
    }
}

// ---- what the operations do ----

/// A `put` that is refused here leaves the backend alone; any other is the
/// backend's, its error tagged with the operation.
pub open spec fn put_done<A: Access>(
    s: Store<A>,
    mem: Map<u64, u8>,
    key: Seq<u8>,
    op: OpPutView,
    t: Store<A>,
    r: Result<Seq<Result<(), ErrorView>>, ErrorView>,
) -> bool {
    match put_refusal(s.capability(), op) {
        Some(e) => t.access() == s.access() && r == Err::<
            Seq<Result<(), ErrorView>>,
            ErrorView,
        >(e.with_operation("put"@)),
        None => exists|inner: Result<Seq<Result<(), ErrorView>>, ErrorView>| #[trigger]
            s.access().put_post(mem, key, op, t.access(), inner) && r == tagged(inner, "put"@),
    }
}

pub open spec fn get_done<A: Access>(
    s: Store<A>,
    mem: Map<u64, u8>,
    key: Seq<u8>,
    op: OpGetView,
    after: Map<u64, u8>,
    r: Result<RpGet, ErrorView>,
) -> bool {
    match get_refusal(s.capability(), op) {
        Some(e) => after == mem && r == Err::<RpGet, ErrorView>(e.with_operation("get"@)),
        None => exists|inner: Result<RpGet, ErrorView>| #[trigger]
            s.access().get_post(mem, key, op, after, inner) && r == tagged(inner, "get"@),
    }
}

/// Every request is a `get`, on the memory that the one before it left.
pub open spec fn many_steps<A: Access>(
    s: Store<A>,
    steps: Seq<Map<u64, u8>>,
    reqs: Seq<(Key, OpGet<'_>)>,
    r: Seq<(usize, Result<RpGet, Error>)>,
) -> bool {
    forall|j: int|
        0 <= j < reqs.len() ==> {
            &&& (#[trigger] r[j]).0 == j
            &&& get_done(s, steps[j], reqs[j].0@, reqs[j].1@, steps[j + 1], error::result_view(r[j].1))
        }
}

pub open spec fn many_done<A: Access>(
    s: Store<A>,
    mem: Map<u64, u8>,
    reqs: Seq<(Key, OpGet<'_>)>,
    after: Map<u64, u8>,
    r: Seq<(usize, Result<RpGet, Error>)>,
) -> bool {
    exists|steps: Seq<Map<u64, u8>>|
        steps.len() == reqs.len() + 1 && steps[0] == mem && steps[reqs.len() as int] == after
            && #[trigger] many_steps(s, steps, reqs, r)
}

pub open spec fn publish_done<A: Access>(
    s: Store<A>,
    key: Seq<u8>,
    op: OpPublishView,
    t: Store<A>,
    r: Result<(), ErrorView>,
) -> bool {
    match publish_refusal(s.capability(), op) {
        Some(e) => t.access() == s.access() && r == Err::<(), ErrorView>(
            e.with_operation("publish"@),
        ),
        None => exists|inner: Result<(), ErrorView>| #[trigger]
            s.access().publish_post(key, op, t.access(), inner) && r == tagged(inner, "publish"@),
    }
}

pub open spec fn stat_done<A: Access>(
    s: Store<A>,
    keys: Seq<Seq<u8>>,
    r: Result<Seq<Option<ObjectInfoView>>, ErrorView>,
) -> bool {
    match stat_refusal(s.capability(), keys.len()) {
        Some(e) => r == Err::<Seq<Option<ObjectInfoView>>, ErrorView>(e.with_operation("stat"@)),
        None => exists|inner: Result<Seq<Option<ObjectInfoView>>, ErrorView>| #[trigger]
            s.access().stat_post(keys, inner) && r == tagged(inner, "stat"@),
    }
}

pub open spec fn remove_done<A: Access>(
    s: Store<A>,
    keys: Seq<Seq<u8>>,
    t: Store<A>,
    r: Result<(), ErrorView>,
) -> bool {
    exists|inner: Result<(), ErrorView>| #[trigger]
        s.access().remove_post(keys, t.access(), inner) && r == tagged(inner, "remove"@)
}

pub open spec fn remove_prefix_done<A: Access>(
    s: Store<A>,
    prefix: Seq<u8>,
    t: Store<A>,
    r: Result<u64, ErrorView>,
) -> bool {
    if !s.capability().remove_prefix {
        t.access() == s.access() && r == Err::<u64, ErrorView>(
            unsupported_view("remove_prefix"@).with_operation("remove_prefix"@),
        )
    } else {
        exists|inner: Result<u64, ErrorView>| #[trigger]
            s.access().remove_prefix_post(prefix, t.access(), inner) && r == tagged(
                inner,
                "remove_prefix"@,
            )
    }
}

/// Builder form of `put`: `store.put_with(key, slots).retention(Explicit)`, sent
/// with `send`.
pub struct FuturePut<'a> {
    pub key: Key,
    pub op: OpPut<'a>,
}

impl<'a> FuturePut<'a> {
    pub fn retention(self, retention: Retention) -> (r: Self)
        ensures
            r.key == self.key,
            r.op@ == (OpPutView { retention, ..self.op@ }),
    {
        FuturePut { key: self.key, op: self.op.with_retention(retention) }
    }

    pub fn send<A: Access>(self, store: &mut Store<A>, mem: &HostMemory) -> (r: Result<
        RpPut,
        Error,
    >)
        requires
            old(store).wf(),
            old(store).access().put_pre(mem@, self.key@, self.op@),
        ensures
            final(store).wf(),
            put_done(*old(store), mem@, self.key@, self.op@, *final(store), memory::reply_view(r)),
    {
        store.put_options(mem, self.key, self.op)
    }
}

/// Builder form of `get`: `store.get_with(key, slot, dst).src_offset(n)`, sent
/// with `send`.
pub struct FutureGet<'a> {
    pub key: Key,
    pub op: OpGet<'a>,
}

impl<'a> FutureGet<'a> {
    pub fn src_offset(self, src_offset: u64) -> (r: Self)
        ensures
            r.key == self.key,
            r.op@ == (OpGetView { src_offset, ..self.op@ }),
    {
        FutureGet { key: self.key, op: self.op.with_src_offset(src_offset) }
    }

    pub fn send<A: Access>(self, store: &Store<A>, mem: &mut HostMemory) -> (r: Result<
        RpGet,
        Error,
    >)
        requires
            store.wf(),
            store.access().get_pre(old(mem)@, self.key@, self.op@),
        ensures
            get_done(*store, old(mem)@, self.key@, self.op@, final(mem)@, error::result_view(r)),
    {
        store.get_options(mem, self.key, self.op)
    }
}

} // verus!
