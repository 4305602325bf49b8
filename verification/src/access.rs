//! The backend trait: what implementers write, and `Store` relies on.
use vstd::prelude::*;

use crate::error;
use crate::error::{Error, ErrorKind, ErrorView};
use crate::ops;
use crate::ops::{OpGet, OpGetView, OpPublish, OpPublishView, OpPut, OpPutView, RpGet, RpPut};
use crate::region;
use crate::region::{HostMemory, MemoryRegion, RegionIds, RegionView};
use crate::services::memory;
use crate::services::memory::{Memory, MemoryView};
use crate::services::placing;
use crate::types::{AccessInfo, AccessInfoView, Device, Key, ObjectInfo, ObjectInfoView};

verus! {

/// A backend. `HostMemory` is the memory that registered regions lie in. Each
/// operation comes with what it needs (`.._pre`) and what it does (`.._post`,
/// over the backend before, the arguments, the backend after and the reply).
pub trait Access: Sized {
    /// Whether the backend is in a state that its operations may start from.
    spec fn valid(&self) -> bool;

    spec fn info_view(&self) -> AccessInfoView;

    spec fn register_post(
        &self,
        first_id: u64,
        addr: u64,
        len: u64,
        device: Device,
        next_id: u64,
        r: Result<RegionView, ErrorView>,
    ) -> bool;

    spec fn put_pre(&self, mem: Map<u64, u8>, key: Seq<u8>, op: OpPutView) -> bool;

    spec fn put_post(
        &self,
        mem: Map<u64, u8>,
        key: Seq<u8>,
        op: OpPutView,
        after: Self,
        r: Result<Seq<Result<(), ErrorView>>, ErrorView>,
    ) -> bool;

    spec fn publish_post(
        &self,
        key: Seq<u8>,
        op: OpPublishView,
        after: Self,
        r: Result<(), ErrorView>,
    ) -> bool;

    spec fn stat_post(
        &self,
        keys: Seq<Seq<u8>>,
        r: Result<Seq<Option<ObjectInfoView>>, ErrorView>,
    ) -> bool;

    spec fn get_pre(&self, mem: Map<u64, u8>, key: Seq<u8>, op: OpGetView) -> bool;

    spec fn get_post(
        &self,
        mem: Map<u64, u8>,
        key: Seq<u8>,
        op: OpGetView,
        after: Map<u64, u8>,
        r: Result<RpGet, ErrorView>,
    ) -> bool;

    spec fn remove_post(&self, keys: Seq<Seq<u8>>, after: Self, r: Result<(), ErrorView>) -> bool;

    spec fn remove_prefix_post(
        &self,
        prefix: Seq<u8>,
        after: Self,
        r: Result<u64, ErrorView>,
    ) -> bool;

    fn info(&self) -> (r: AccessInfo)
        requires
            self.valid(),
        ensures
            r@ == self.info_view(),
    ;

    /// Register user memory: `len` bytes from `addr` on, accessible according
    /// to `device`, which outlive the region.
    fn register(&self, ids: &mut RegionIds, addr: u64, len: u64, device: Device) -> (r: Result<
        MemoryRegion,
        Error,
    >)
        requires
            self.valid(),
        ensures
            self.register_post(old(ids)@, addr, len, device, final(ids)@, region_view(r)),
    ;

    /// Write-once per slot. Creates the object if absent; otherwise the spec
    /// must match and only empty slots are written.
    fn put(&mut self, mem: &HostMemory, key: Key, op: OpPut<'_>) -> (r: Result<RpPut, Error>)
        requires
            old(self).valid(),
            old(self).put_pre(mem@, key@, op@),
        ensures
            final(self).valid(),
            final(self).info_view() == old(self).info_view(),
            old(self).put_post(mem@, key@, op@, *final(self), memory::reply_view(r)),
    ;

    /// Register user memory as an `External` replica of an existing slot.
    fn publish(&mut self, key: Key, op: OpPublish<'_>) -> (r: Result<(), Error>)
        requires
            old(self).valid(),
        ensures
            final(self).valid(),
            final(self).info_view() == old(self).info_view(),
            old(self).publish_post(key@, op@, *final(self), error::result_view(r)),
    ;

    fn stat(&self, keys: &[Key]) -> (r: Result<Vec<Option<ObjectInfo>>, Error>)
        requires
            self.valid(),
        ensures
            self.stat_post(memory::key_views(keys@), stat_view(r)),
    ;

    /// Read one slot into `dst`, choosing the nearest replica.
    fn get(&self, mem: &mut HostMemory, key: Key, op: OpGet<'_>) -> (r: Result<RpGet, Error>)
        requires
            self.valid(),
            self.get_pre(old(mem)@, key@, op@),
        ensures
            final(mem)@.dom() == old(mem)@.dom(),
            self.get_post(old(mem)@, key@, op@, final(mem)@, error::result_view(r)),
    ;

    fn remove(&mut self, keys: &[Key]) -> (r: Result<(), Error>)
        requires
            old(self).valid(),
        ensures
            final(self).valid(),
            final(self).info_view() == old(self).info_view(),
            old(self).remove_post(memory::key_views(keys@), *final(self), error::result_view(r)),
    ;

    /// Remove every object whose key starts with `prefix`; returns the count.
    fn remove_prefix(&mut self, prefix: &[u8]) -> (r: Result<u64, Error>)
        requires
            old(self).valid(),
        ensures
            final(self).valid(),
            final(self).info_view() == old(self).info_view(),
            old(self).remove_prefix_post(prefix@, *final(self), error::result_view(r)),
    ;
}

pub open spec fn region_view(r: Result<MemoryRegion, Error>) -> Result<RegionView, ErrorView> {
    match r {
        Ok(region) => Ok(region@),
        Err(e) => Err(e@),
    }
}

pub open spec fn stat_view(r: Result<Vec<Option<ObjectInfo>>, Error>) -> Result<
    Seq<Option<ObjectInfoView>>,
    ErrorView,
> {
    match r {
        Ok(infos) => Ok(memory::info_views(infos@)),
        Err(e) => Err(e@),
    }
}

impl Access for Memory {
    open spec fn valid(&self) -> bool {
        self.wf()
    }

    open spec fn info_view(&self) -> AccessInfoView {
        self@.info
    }

    open spec fn register_post(
        &self,
        first_id: u64,
        addr: u64,
        len: u64,
        device: Device,
        next_id: u64,
        r: Result<RegionView, ErrorView>,
    ) -> bool {
        if device is Gpu && !self@.info.capability.gpu_memory {
            &&& r == Err::<RegionView, ErrorView>(
                ErrorView::new(ErrorKind::Unsupported, "gpu memory disabled"@),
            )
            &&& next_id == first_id
        } else {
            &&& r == Ok::<RegionView, ErrorView>(RegionView { id: first_id, addr, len, device })
            &&& next_id == first_id.wrapping_add(1)
        }
    }

    open spec fn put_pre(&self, mem: Map<u64, u8>, key: Seq<u8>, op: OpPutView) -> bool {
        op.error() is None ==> memory::sources_mapped(mem, op) && placing::countable(self@.state, op)
    }

    open spec fn put_post(
        &self,
        mem: Map<u64, u8>,
        key: Seq<u8>,
        op: OpPutView,
        after: Self,
        r: Result<Seq<Result<(), ErrorView>>, ErrorView>,
    ) -> bool {
        &&& after@.gpu_numa == self@.gpu_numa
        &&& (after@.state, r) == self@.state.put(self@.info.devices, key, op, memory::sources(mem, op))
    }

    open spec fn publish_post(
        &self,
        key: Seq<u8>,
        op: OpPublishView,
        after: Self,
        r: Result<(), ErrorView>,
    ) -> bool {
        &&& after@ == (MemoryView { state: self@.state.published(key, op), ..self@ })
        &&& r == self@.state.publish_result(key, op)
    }

    open spec fn stat_post(
        &self,
        keys: Seq<Seq<u8>>,
        r: Result<Seq<Option<ObjectInfoView>>, ErrorView>,
    ) -> bool {
        r == Ok::<Seq<Option<ObjectInfoView>>, ErrorView>(
            Seq::new(keys.len(), |i: int| self@.state.info(self@.info.node, keys[i])),
        )
    }

    open spec fn get_pre(&self, mem: Map<u64, u8>, key: Seq<u8>, op: OpGetView) -> bool {
        &&& memory::externals_mapped(mem, self@.state)
        &&& ops::checked_iovs(op.dst, None) is Ok ==> region::segs_mapped(mem, region::segments(op.dst))
    }

    open spec fn get_post(
        &self,
        mem: Map<u64, u8>,
        key: Seq<u8>,
        op: OpGetView,
        after: Map<u64, u8>,
        r: Result<RpGet, ErrorView>,
    ) -> bool {
        &&& r == self@.get_result(key, op)
        &&& after == self@.get_memory(mem, key, op)
    }

    open spec fn remove_post(
        &self,
        keys: Seq<Seq<u8>>,
        after: Self,
        r: Result<(), ErrorView>,
    ) -> bool {
        &&& after@ == (MemoryView { state: self@.state.removed_all(keys, keys.len()), ..self@ })
        &&& r is Ok
    }

    open spec fn remove_prefix_post(
        &self,
        prefix: Seq<u8>,
        after: Self,
        r: Result<u64, ErrorView>,
    ) -> bool {
        &&& after@ == (MemoryView { state: self@.state.removed_prefix(prefix), ..self@ })
        &&& r is Ok
        &&& r->Ok_0 == self@.state.under(prefix).len()
    }

    fn info(&self) -> (r: AccessInfo) {
        Memory::info(self)
    }

    fn register(&self, ids: &mut RegionIds, addr: u64, len: u64, device: Device) -> (r: Result<
        MemoryRegion,
        Error,
    >) {
        Memory::register(self, ids, addr, len, device)
    }

    fn put(&mut self, mem: &HostMemory, key: Key, op: OpPut<'_>) -> (r: Result<RpPut, Error>) {
        Memory::put(self, mem, key, op)
    }

    fn publish(&mut self, key: Key, op: OpPublish<'_>) -> (r: Result<(), Error>) {
        Memory::publish(self, key, op)
    }

    fn stat(&self, keys: &[Key]) -> (r: Result<Vec<Option<ObjectInfo>>, Error>) {
        let infos = Memory::stat(self, keys);
        assert(memory::info_views(infos@) =~= Seq::new(
            keys@.len(),
            |i: int| self@.state.info(self@.info.node, memory::key_views(keys@)[i]),
        ));
        Ok(infos)
    }

    fn get(&self, mem: &mut HostMemory, key: Key, op: OpGet<'_>) -> (r: Result<RpGet, Error>) {
        Memory::get(self, mem, key, op)
    }

    fn remove(&mut self, keys: &[Key]) -> (r: Result<(), Error>) {
        Memory::remove(self, keys);
        Ok(())
    }

    fn remove_prefix(&mut self, prefix: &[u8]) -> (r: Result<u64, Error>) {
        Ok(Memory::remove_prefix(self, prefix))
    }
}

/// Whether a `get` may be sent depends on which addresses are mapped alone, not
/// on what they hold.
pub proof fn law_get_needs_mapped_memory_alone(
    m: Memory,
    mem: Map<u64, u8>,
    other: Map<u64, u8>,
    key: Seq<u8>,
    op: OpGetView,
)
    requires
        m.get_pre(mem, key, op),
        other.dom() == mem.dom(),
    ensures
        m.get_pre(other, key, op),
{
    assert forall|a: u64| #[trigger] other.contains_key(a) == mem.contains_key(a) by {
        assert(other.dom().contains(a) == mem.dom().contains(a));
    }
    assert forall|segs: Seq<(u64, u64)>| region::segs_mapped(mem, segs) implies #[trigger] region::segs_mapped(
        other,
        segs,
    ) by {
        assert forall|i: int| 0 <= i < segs.len() implies region::range_mapped(
            other,
            (#[trigger] segs[i]).0,
            segs[i].1,
        ) by {
            assert(region::range_mapped(mem, segs[i].0, segs[i].1));
            assert forall|a: u64| segs[i].0 <= a < segs[i].0 + segs[i].1 implies #[trigger] other.contains_key(
            a) by {
                assert(mem.contains_key(a));
            }
        }
    }
}

} // verus!
