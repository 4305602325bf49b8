//! What the plans of copies and reads do to memory, byte by byte.
use vstd::prelude::*;

use crate::copy;
use crate::copy::{Engine, Seg};
use crate::error::ErrorView;
use crate::local::backend;
use crate::local::backend::{CopyPlan, LocalView, ReadPlan, Step, Target};
use crate::local::ledger;
use crate::local::ledger::{Keeper, LocalData, LocalReplica, LocalState};
use crate::local::safety;
use crate::ops::OpGetView;
use crate::region;
use crate::region::IovView;
use crate::types::Device;

verus! {

proof fn lemma_pairs(pairs: Seq<(u64, u64)>, segs: Seq<Seg>)
    ensures
        copy::seg_pairs(copy::pair_segs(pairs)) == pairs,
        copy::seg_pairs(segs) == pairs ==> segs == copy::pair_segs(pairs),
{
    assert(copy::seg_pairs(copy::pair_segs(pairs)) =~= pairs);
    if copy::seg_pairs(segs) == pairs {
        assert(segs.len() == pairs.len());
        assert forall|i: int| 0 <= i < segs.len() implies segs[i] == copy::pair_segs(pairs)[i] by {
            assert(copy::seg_pairs(segs)[i] == pairs[i]);
        }
        assert(segs =~= copy::pair_segs(pairs));
    }
}

/// Whether a copy of `dst.len()` bytes from `offset` on overwrites none of the bytes
/// that it reads, and no byte twice.
pub open spec fn apart(src: Seq<Seg>, offset: int, dst: Seq<Seg>) -> bool {
    let n = copy::segs_total(dst);
    &&& forall|j: int, k: int|
        offset <= j < offset + n && 0 <= k < n ==> #[trigger] copy::byte_addr(src, j)
            != #[trigger] copy::byte_addr(dst, k)
    &&& forall|j: int, k: int|
        0 <= j < k < n ==> #[trigger] copy::byte_addr(dst, j) != #[trigger] copy::byte_addr(dst, k)
}

/// A read that is carried out as planned brings the range that was asked for: the
/// destination then holds the bytes of the replica from the offset on, as many as
/// it has room for. It goes through the engine between the two devices, and says
/// where it reads from.
pub proof fn law_reads_bring_the_range_asked_for(
    v: LocalView,
    r: LocalReplica,
    op: OpGetView,
    plan: ReadPlan,
    mem: Map<u64, u8>,
)
    requires
        v.is_plan(r, op, plan),
        op.src_offset + region::iov_total(op.dst) <= region::total_len(v.state.segs(r)),
        copy::addressable(copy::pair_segs(v.state.segs(r))),
        copy::addressable(copy::pair_segs(region::segments(op.dst))),
        apart(
            copy::pair_segs(v.state.segs(r)),
            op.src_offset as int,
            copy::pair_segs(region::segments(op.dst)),
        ),
    ensures
        region::gathered(
            copy::moved(mem, copy::moves(plan.pieces@)),
            region::segments(op.dst),
        ) == region::gathered(mem, v.state.segs(r)).subrange(
            op.src_offset as int,
            op.src_offset + region::iov_total(op.dst),
        ),
        plan.from.node == v.info.node,
        plan.from.device == r.device,
        plan.from.tier == r.tier,
        copy::engine_for(v.gpus, r.device, op.dst[0].region.device) == Ok::<Engine, ErrorView>(
            plan.engine,
        ),
{
    let from = v.state.segs(r);
    let to = region::segments(op.dst);
    let (src, dst) = choose|src: Seq<Seg>, dst: Seq<Seg>|
        #![trigger copy::seg_pairs(src), copy::seg_pairs(dst)]
        copy::seg_pairs(src) == from && copy::seg_pairs(dst) == to && copy::moves(plan.pieces@)
            == copy::straight(src, op.src_offset as int, dst, region::iov_total(op.dst));
    lemma_pairs(from, src);
    lemma_pairs(to, dst);
    copy::law_plan_copies_the_range(mem, src, op.src_offset as int, dst);
}

/// A copy that is carried out as planned fills its target with the bytes of the
/// source, from the first to the last.
pub proof fn law_copies_fill_their_target(
    gpus: Seq<u16>,
    src: Seq<IovView>,
    target: Target,
    plan: CopyPlan,
    mem: Map<u64, u8>,
)
    requires
        backend::is_copy(gpus, src, target, plan),
        region::iov_total(src) == target.len,
        copy::addressable(copy::pair_segs(region::segments(src))),
        target.addr + target.len <= u64::MAX + 1,
        apart(
            copy::pair_segs(region::segments(src)),
            0,
            seq![Seg { addr: target.addr, len: target.len }],
        ),
    ensures
        region::gathered(
            copy::moved(mem, copy::moves(plan.pieces@)),
            seq![(target.addr, target.len)],
        ) == region::gathered(mem, region::segments(src)),
        copy::engine_for(gpus, src[0].region.device, target.device) == Ok::<Engine, ErrorView>(
            plan.engine,
        ),
{
    let pairs = region::segments(src);
    let from = copy::pair_segs(pairs);
    let dst = seq![Seg { addr: target.addr, len: target.len }];
    let to = seq![(target.addr, target.len)];
    lemma_pairs(pairs, from);
    assert(copy::seg_pairs(dst) =~= to);
    assert(to.drop_last() =~= Seq::empty());
    assert(region::total_len(to.drop_last()) == 0);
    assert(copy::segs_total(dst) == target.len);
    copy::law_plan_copies_the_range(mem, from, 0, dst);
    region::lemma_gathered_len(mem, pairs);
    let all = region::gathered(mem, pairs);
    assert(all.subrange(0, all.len() as int) =~= all);
}

/// A write is told to copy the slot that it waits for, to each of the allocations
/// that were made for it and nowhere else; one that waits for nothing is done.
pub proof fn law_copies_go_to_the_allocations_of_their_slot(
    s: LocalState,
    run: int,
    step: Step,
    x: int,
)
    requires
        backend::step_ok(s, run, step),
    ensures
        s.runs[run]->0.pending is None <==> step is Done,
        s.runs[run]->0.pending matches Some(spots) ==> (step matches Step::Copy {
            slot,
            targets,
        } && slot == s.runs[run]->0.results.len() && targets@.len() == spots.len() && (0 <= x
            < spots.len() ==> targets@[x].device == (Device::Cpu { numa: spots[x].0 })
            && targets@[x].addr == s.bufs[spots[x].2 as int]->0.buf.addr && targets@[x].len
            == s.bufs[spots[x].2 as int]->0.buf.len as u64)),
{
}

/// A read that has ended leaves nothing behind: the backend is as it was before
/// the read began.
pub proof fn law_ended_reads_leave_nothing_behind(v: LocalView, key: Seq<u8>, op: OpGetView)
    requires
        v.get_result(key, op) is Ok,
        v.get_result(key, op)->Ok_0.data matches LocalData::Pinned(id) ==> v.state.live(id as int)
            && v.state.bufs[id as int]->0.keeper == Keeper::Stored,
        v.loans.len() < usize::MAX,
        v.get_result(key, op)->Ok_0.data is External ==> exists|n: int|
            0 <= n < v.loans.len() && (#[trigger] v.loans[n]) is None,
    ensures
        v.get_begun(key, op).get_ended(v.hold_of(v.get_result(key, op)->Ok_0)) == v,
        v.get_begun(key, op).held(v.hold_of(v.get_result(key, op)->Ok_0)),
{
    let r = v.get_result(key, op)->Ok_0;
    let t = v.get_begun(key, op);
    let u = t.get_ended(v.hold_of(r));
    match r.data {
        LocalData::Pinned(id) => {
            assert(u.state.bufs =~= v.state.bufs);
            assert(u.state =~= v.state);
        },
        LocalData::External { .. } => {
            let c = safety::lemma_next(v.loans, 0);
            let n = choose|n: int| 0 <= n < v.loans.len() && (#[trigger] v.loans[n]) is None;
            if c >= v.loans.len() {
                assert(v.loans[n] is Some);
            }
            assert(u.loans =~= v.loans);
        },
    }
    assert(u =~= v);
}

} // verus!
