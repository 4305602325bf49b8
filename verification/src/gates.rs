//! What a backend's capability lets through.
use vstd::prelude::*;

use crate::access::Access;
use crate::error::{ErrorKind, ErrorStatus, ErrorView};
use crate::ops;
use crate::ops::{OpGetView, OpPublishView, OpPutView, RpGet};
use crate::store;
use crate::store::Store;
use crate::types;
use crate::types::{Capability, Device, ObjectInfoView, Retention};

verus! {

/// Whether a number is within a limit, where there is one.
pub open spec fn within(n: nat, limit: Option<u32>) -> bool {
    match limit {
        Some(max) => n <= max,
        None => true,
    }
}

/// Whether a capability allows a request to write: its retention, how many slots
/// it has, and of every slot its placement, its length and how many segments its
/// source has.
pub open spec fn allows_put(cap: Capability, op: OpPutView) -> bool {
    &&& op.retention == Retention::Explicit ==> cap.retention_explicit
    &&& within(op.slots.len(), cap.max_slots)
    &&& forall|i: int|
        0 <= i < op.slots.len() ==> {
            let slot = #[trigger] op.slots[i];
            &&& slot.spec.placement is Strict ==> cap.placement_strict
            &&& slot.spec.placement is Each ==> cap.placement_each
            &&& cap.max_slot_len matches Some(max) ==> slot.spec.len <= max
            &&& within(slot.src.len(), cap.max_iov)
        }
}

pub open spec fn is_unsupported(e: Option<ErrorView>) -> bool {
    e matches Some(x) && x.kind == ErrorKind::Unsupported && x.status == ErrorStatus::Permanent
}

proof fn lemma_slots(cap: Capability, op: OpPutView, n: nat)
    requires
        n <= op.slots.len(),
    ensures
        store::slots_refusal(cap, op, n) is None <==> forall|i: int|
            0 <= i < n ==> {
                let slot = #[trigger] op.slots[i];
                &&& slot.spec.placement is Strict ==> cap.placement_strict
                &&& slot.spec.placement is Each ==> cap.placement_each
                &&& cap.max_slot_len matches Some(max) ==> slot.spec.len <= max
                &&& within(slot.src.len(), cap.max_iov)
            },
        store::slots_refusal(cap, op, n) is Some ==> is_unsupported(
            store::slots_refusal(cap, op, n),
        ),
    decreases n,
{
    if n > 0 {
        lemma_slots(cap, op, (n - 1) as nat);
        let slot = op.slots[n - 1];
        assert(store::slot_refusal(cap, slot, (n - 1) as nat) is None <==> ({
            &&& slot.spec.placement is Strict ==> cap.placement_strict
            &&& slot.spec.placement is Each ==> cap.placement_each
            &&& cap.max_slot_len matches Some(max) ==> slot.spec.len <= max
            &&& within(slot.src.len(), cap.max_iov)
        }));
    }
}

/// A request to write reaches the backend exactly if it is sound and the
/// capability allows it; a sound one that it does not allow is `Unsupported`.
pub proof fn law_writes_pass_where_they_are_allowed(cap: Capability, op: OpPutView)
    ensures
        store::put_refusal(cap, op) is None <==> op.error() is None && allows_put(cap, op),
        op.error() is Some ==> store::put_refusal(cap, op) == op.error(),
        op.error() is None && !allows_put(cap, op) ==> is_unsupported(store::put_refusal(cap, op)),
{
    lemma_slots(cap, op, op.slots.len());
}

/// So does a read or memory that is lent, with no more segments than allowed; a
/// backend that takes no publications gets none.
pub proof fn law_reads_and_publications_pass_where_they_are_allowed(
    cap: Capability,
    get: OpGetView,
    publish: OpPublishView,
)
    ensures
        store::get_refusal(cap, get) is None <==> ops::checked_iovs(get.dst, None) is Ok && within(
            get.dst.len(),
            cap.max_iov,
        ),
        ops::checked_iovs(get.dst, None) is Ok && !within(get.dst.len(), cap.max_iov)
            ==> is_unsupported(store::get_refusal(cap, get)),
        ops::checked_iovs(get.dst, None) matches Err(e) ==> store::get_refusal(cap, get) == Some(e),
        store::publish_refusal(cap, publish) is None <==> cap.publish && ops::checked_iovs(
            publish.src,
            None,
        ) is Ok && within(publish.src.len(), cap.max_iov),
        !cap.publish ==> is_unsupported(store::publish_refusal(cap, publish)),
        cap.publish && ops::checked_iovs(publish.src, None) is Ok && !within(
            publish.src.len(),
            cap.max_iov,
        ) ==> is_unsupported(store::publish_refusal(cap, publish)),
        cap.publish ==> (ops::checked_iovs(publish.src, None) matches Err(e)
            ==> store::publish_refusal(cap, publish) == Some(e)),
{
}

/// Memory of a GPU, the removal of a prefix and a question about many keys pass
/// exactly if they are allowed, and are `Unsupported` otherwise.
pub proof fn law_the_rest_passes_where_it_is_allowed(cap: Capability, device: Device, keys: nat)
    ensures
        store::register_refusal(cap, device) is None <==> (device is Gpu ==> cap.gpu_memory),
        store::register_refusal(cap, device) is Some ==> is_unsupported(
            store::register_refusal(cap, device),
        ),
        store::remove_prefix_refusal(cap) is None <==> cap.remove_prefix,
        store::remove_prefix_refusal(cap) is Some ==> is_unsupported(
            store::remove_prefix_refusal(cap),
        ),
        store::stat_refusal(cap, keys) is None <==> within(keys, cap.max_stat_batch),
        store::stat_refusal(cap, keys) is Some ==> is_unsupported(store::stat_refusal(cap, keys)),
{
}

/// An answer passes through as it is; an error names the operation, unless it
/// names one already.
pub proof fn law_answers_pass_through<T>(r: Result<T, ErrorView>, operation: Seq<char>)
    ensures
        r is Ok <==> store::tagged(r, operation) is Ok,
        r matches Ok(v) ==> store::tagged(r, operation) == Ok::<T, ErrorView>(v),
        r matches Err(e) ==> {
            &&& store::tagged(r, operation) matches Err(x) && x.kind == e.kind && x.status
                == e.status && x.message == e.message && x.context == e.context && x.source
                == e.source
            &&& store::tagged(r, operation)->Err_0.operation == if e.operation is Some {
                e.operation
            } else {
                Some(operation)
            }
        },
{
}

/// A request to write that is not let through does not reach the backend: it stays
/// as it is, and the request is refused.
pub proof fn law_refused_writes_change_nothing<A: Access>(
    s: Store<A>,
    mem: Map<u64, u8>,
    key: Seq<u8>,
    op: OpPutView,
    t: Store<A>,
    r: Result<Seq<Result<(), ErrorView>>, ErrorView>,
)
    requires
        store::put_done(s, mem, key, op, t, r),
        op.error() is Some || !allows_put(s.capability(), op),
    ensures
        t.access() == s.access(),
        r is Err,
{
    law_writes_pass_where_they_are_allowed(s.capability(), op);
}

/// A read that is not let through leaves the memory as it is.
pub proof fn law_refused_reads_change_nothing<A: Access>(
    s: Store<A>,
    mem: Map<u64, u8>,
    key: Seq<u8>,
    op: OpGetView,
    after: Map<u64, u8>,
    r: Result<RpGet, ErrorView>,
)
    requires
        store::get_done(s, mem, key, op, after, r),
        ops::checked_iovs(op.dst, None) is Err || !within(op.dst.len(), s.capability().max_iov),
    ensures
        after == mem,
        r is Err,
{
}

/// Nor do memory that may not be lent and a removal of a prefix that is not
/// allowed reach the backend.
pub proof fn law_refused_changes_change_nothing<A: Access>(
    s: Store<A>,
    key: Seq<u8>,
    op: OpPublishView,
    prefix: Seq<u8>,
    t: Store<A>,
    r: Result<(), ErrorView>,
    n: Result<u64, ErrorView>,
)
    ensures
        store::publish_done(s, key, op, t, r) && (!s.capability().publish || ops::checked_iovs(
            op.src,
            None,
        ) is Err || !within(op.src.len(), s.capability().max_iov)) ==> t.access() == s.access()
            && r is Err,
        store::remove_prefix_done(s, prefix, t, n) && !s.capability().remove_prefix ==> t.access()
            == s.access() && n is Err,
{
}

/// A question about too many keys is refused.
pub proof fn law_long_questions_are_refused<A: Access>(
    s: Store<A>,
    keys: Seq<Seq<u8>>,
    r: Result<Seq<Option<ObjectInfoView>>, ErrorView>,
)
    requires
        store::stat_done(s, keys, r),
        !within(keys.len(), s.capability().max_stat_batch),
    ensures
        r is Err,
{
}

/// A backend with every capability refuses no sound request, and one with none lets
/// no publication, no demand for a device or for several, no explicit retention, no
/// memory of a GPU and no removal of a prefix through.
pub proof fn law_full_capability_lets_everything_through(
    put: OpPutView,
    get: OpGetView,
    publish: OpPublishView,
    device: Device,
    keys: nat,
    i: int,
)
    ensures
        ({
            let all = types::unlimited(true);
            &&& store::put_refusal(all, put) == put.error()
            &&& store::get_refusal(all, get) is None <==> ops::checked_iovs(get.dst, None) is Ok
            &&& store::publish_refusal(all, publish) is None <==> ops::checked_iovs(
                publish.src,
                None,
            ) is Ok
            &&& store::register_refusal(all, device) is None
            &&& store::remove_prefix_refusal(all) is None
            &&& store::stat_refusal(all, keys) is None
        }),
        ({
            let none = types::unlimited(false);
            &&& put.retention == Retention::Explicit ==> store::put_refusal(none, put) is Some
            &&& 0 <= i < put.slots.len() && (put.slots[i].spec.placement is Strict
                || put.slots[i].spec.placement is Each) ==> store::put_refusal(none, put) is Some
            &&& store::publish_refusal(none, publish) is Some
            &&& device is Gpu ==> store::register_refusal(none, device) is Some
            &&& store::remove_prefix_refusal(none) is Some
        }),
{
    law_writes_pass_where_they_are_allowed(types::unlimited(true), put);
    law_writes_pass_where_they_are_allowed(types::unlimited(false), put);
    if 0 <= i < put.slots.len() {
        let slot = put.slots[i];
        assert(slot.spec.placement is Strict ==> !allows_put(types::unlimited(false), put));
        assert(slot.spec.placement is Each ==> !allows_put(types::unlimited(false), put));
    }
    assert(allows_put(types::unlimited(true), put));
}

} // verus!
