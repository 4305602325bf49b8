//! Operation arguments and replies. `Op*` are plain data: new requirements
//! add fields here, never methods to `Access`.
use vstd::prelude::*;

use crate::error;
use crate::error::{Error, ErrorKind, ErrorView};
use crate::region;
use crate::region::{Iov, IovView};
use crate::text;
use crate::text::decimal_string;
use crate::types;
use crate::types::{
    Device, Location, ObjectSpec, ObjectSpecView, Retention, SlotIdx, SlotSpec, SlotSpecView,
};

verus! {

/// The refusal of a segment that leaves its region.
pub open spec fn out_of_bounds(i: nat, iov: IovView) -> ErrorView {
    ErrorView::new(ErrorKind::InvalidInput, "iov out of region bounds"@).with_context(
        "index"@,
        text::decimal(i),
    ).with_context("offset"@, text::decimal(iov.offset as nat)).with_context(
        "len"@,
        text::decimal(iov.len as nat),
    ).with_context("region_len"@, text::decimal(iov.region.len as nat))
}

/// The refusal of a segment on another device than the first one's.
pub open spec fn two_devices(i: nat, device: Device, expected: Device) -> ErrorView {
    ErrorView::new(ErrorKind::InvalidInput, "iov list spans multiple devices"@).with_context(
        "index"@,
        text::decimal(i),
    ).with_context("device"@, types::device_text(device)).with_context(
        "expected"@,
        types::device_text(expected),
    )
}

/// The total of the first `n` segments, or the first thing wrong with them.
pub open spec fn scanned(iovs: Seq<IovView>, n: nat) -> Result<nat, ErrorView>
    decreases n,
{
    if n == 0 {
        Ok(0)
    } else {
        let iov = iovs[n - 1];
        match scanned(iovs, (n - 1) as nat) {
            Err(e) => Err(e),
            Ok(total) => if !iov.in_bounds() {
                Err(out_of_bounds((n - 1) as nat, iov))
            } else if iov.region.device != iovs[0].region.device {
                Err(two_devices((n - 1) as nat, iov.region.device, iovs[0].region.device))
            } else if total + iov.len > u64::MAX {
                Err(ErrorView::new(ErrorKind::InvalidInput, "iov total length overflows"@))
            } else {
                Ok(total + iov.len as nat)
            },
        }
    }
}

/// The verdict on a gather/scatter list: its device and total length, or the
/// first thing wrong with it.
pub open spec fn checked_iovs(iovs: Seq<IovView>, expect: Option<u64>) -> Result<
    (Device, u64),
    ErrorView,
> {
    if iovs.len() == 0 {
        Err(ErrorView::new(ErrorKind::InvalidInput, "empty iov list"@))
    } else {
        match scanned(iovs, iovs.len()) {
            Err(e) => Err(e),
            Ok(total) => if expect is Some && total != expect->0 {
                Err(
                    ErrorView::new(
                        ErrorKind::InvalidInput,
                        "iov total length mismatch"@,
                    ).with_context("total"@, text::decimal(total)).with_context(
                        "expected"@,
                        text::decimal(expect->0 as nat),
                    ),
                )
            } else {
                Ok((iovs[0].region.device, total as u64))
            },
        }
    }
}

proof fn lemma_scan_error_stays(iovs: Seq<IovView>, n: nat, m: nat)
    requires
        n <= m,
        scanned(iovs, n) is Err,
    ensures
        scanned(iovs, m) == scanned(iovs, n),
    decreases m,
{
    if n < m {
        lemma_scan_error_stays(iovs, n, (m - 1) as nat);
    }
}

proof fn lemma_scan_total(iovs: Seq<IovView>, n: nat)
    requires
        n <= iovs.len(),
        scanned(iovs, n) is Ok,
    ensures
        scanned(iovs, n)->Ok_0 == region::total_len(region::segments(iovs).take(n as int)),
        scanned(iovs, n)->Ok_0 <= u64::MAX,
        forall|i: int|
            0 <= i < n ==> (#[trigger] iovs[i]).in_bounds() && iovs[i].region.device
                == iovs[0].region.device,
    decreases n,
{
    if n > 0 {
        lemma_scan_total(iovs, (n - 1) as nat);
        assert(region::segments(iovs).take(n as int).drop_last() =~= region::segments(iovs).take(n - 1));
    }
}

/// A list passes exactly if it is non-empty, stays inside its regions and on
/// one device, and adds up (to the expected length, where one is given); what
/// comes back is that device and the sum.
pub proof fn law_iovs_pass_exactly_if_sound(iovs: Seq<IovView>, expect: Option<u64>)
    ensures
        checked_iovs(iovs, expect) is Ok <==> {
            &&& iovs.len() > 0
            &&& forall|i: int| 0 <= i < iovs.len() ==> (#[trigger] iovs[i]).in_bounds()
            &&& forall|i: int|
                0 <= i < iovs.len() ==> (#[trigger] iovs[i]).region.device == iovs[0].region.device
            &&& region::iov_total(iovs) <= u64::MAX
            &&& expect is Some ==> region::iov_total(iovs) == expect->0
        },
        checked_iovs(iovs, expect) matches Ok((device, total)) ==> device == iovs[0].region.device
            && total == region::iov_total(iovs),
{
    assert(region::segments(iovs).take(iovs.len() as int) =~= region::segments(iovs));
    if scanned(iovs, iovs.len()) is Ok {
        lemma_scan_total(iovs, iovs.len());
    } else {
        lemma_scan_reason(iovs, iovs.len());
    }
}

proof fn lemma_total_take(segs: Seq<(u64, u64)>, n: int)
    requires
        0 <= n <= segs.len(),
    ensures
        region::total_len(segs.take(n)) <= region::total_len(segs),
    decreases segs.len() - n,
{
    if n < segs.len() {
        lemma_total_take(segs, n + 1);
        assert(segs.take(n + 1).drop_last() =~= segs.take(n));
    } else {
        assert(segs.take(n) =~= segs);
    }
}

proof fn lemma_scan_reason(iovs: Seq<IovView>, n: nat)
    requires
        n <= iovs.len(),
        scanned(iovs, n) is Err,
    ensures
        region::iov_total(iovs) > u64::MAX || exists|i: int|
            0 <= i < iovs.len() && !((#[trigger] iovs[i]).in_bounds() && iovs[i].region.device
                == iovs[0].region.device),
    decreases n,
{
    if scanned(iovs, (n - 1) as nat) is Err {
        lemma_scan_reason(iovs, (n - 1) as nat);
    } else {
        lemma_scan_total(iovs, (n - 1) as nat);
        assert(region::segments(iovs).take(n as int).drop_last() =~= region::segments(iovs).take(n - 1));
        lemma_total_take(region::segments(iovs), n as int);
        let iov = iovs[n - 1];
        if iov.in_bounds() && iov.region.device == iovs[0].region.device {
            assert(region::segments(iovs)[n - 1] == (iov.addr(), iov.len));
        }
    }
}

/// Check a gather/scatter list: non-empty, every segment in bounds, all on one
/// device, and (if given) summing to `expect_len`. Returns (device, total).
pub fn validate_iovs(iovs: &[Iov<'_>], expect_len: Option<u64>) -> (r: Result<(Device, u64), Error>)
    ensures
        error::result_view(r) == checked_iovs(region::iov_views(iovs@), expect_len),
{
    let ghost views = region::iov_views(iovs@);
    if iovs.len() == 0 {
        return Err(Error::new(ErrorKind::InvalidInput, "empty iov list"));
    }
    let device = iovs[0].device();
    let mut total: u64 = 0;
    for i in 0..iovs.len()
        invariant
            views == region::iov_views(iovs@),
            iovs@.len() > 0,
            device == views[0].region.device,
            scanned(views, i as nat) == Ok::<nat, ErrorView>(total as nat),
    {
        let iov = iovs[i];
        assert(views[i as int] == iov@);
        if !iov.in_bounds() {
            proof {
                lemma_scan_error_stays(views, (i + 1) as nat, views.len());
            }
            return Err(
                Error::new(ErrorKind::InvalidInput, "iov out of region bounds").with_context(
                    "index",
                    decimal_string(i as u64),
                ).with_context("offset", decimal_string(iov.offset)).with_context(
                    "len",
                    decimal_string(iov.len),
                ).with_context("region_len", decimal_string(iov.region.len())),
            );
        }
        if iov.device() != device {
            proof {
                lemma_scan_error_stays(views, (i + 1) as nat, views.len());
            }
            return Err(
                Error::new(
                    ErrorKind::InvalidInput,
                    "iov list spans multiple devices",
                ).with_context("index", decimal_string(i as u64)).with_context(
                    "device",
                    iov.device().to_string(),
                ).with_context("expected", device.to_string()),
            );
        }
        match total.checked_add(iov.len) {
            Some(t) => {
                total = t;
            },
            None => {
                proof {
                    lemma_scan_error_stays(views, (i + 1) as nat, views.len());
                }
                return Err(Error::new(ErrorKind::InvalidInput, "iov total length overflows"));
            },
        }
    }
    if let Some(expect) = expect_len {
        if total != expect {
            return Err(
                Error::new(ErrorKind::InvalidInput, "iov total length mismatch").with_context(
                    "total",
                    decimal_string(total),
                ).with_context("expected", decimal_string(expect)),
            );
        }
    }
    Ok((device, total))
}

#[derive(Debug)]
pub struct PutSlot<'a> {
    pub spec: SlotSpec,
    pub src: &'a [Iov<'a>],
}

pub struct PutSlotView {
    pub spec: SlotSpecView,
    pub src: Seq<IovView>,
}

impl<'a> View for PutSlot<'a> {
    type V = PutSlotView;

    open spec fn view(&self) -> PutSlotView {
        PutSlotView { spec: self.spec@, src: region::iov_views(self.src@) }
    }
}

impl<'a> PutSlot<'a> {
    pub fn new(spec: SlotSpec, src: &'a [Iov<'a>]) -> (r: Self)
        ensures
            r@ == (PutSlotView { spec: spec@, src: region::iov_views(src@) }),
    {
        Self { spec, src }
    }
}

#[derive(Debug)]
pub struct OpPut<'a> {
    pub retention: Retention,
    pub slots: Vec<PutSlot<'a>>,
}

#[verifier::ext_equal]
pub struct OpPutView {
    pub retention: Retention,
    pub slots: Seq<PutSlotView>,
}

pub open spec fn put_slots_view(slots: Seq<PutSlot<'_>>) -> Seq<PutSlotView> {
    Seq::new(slots.len(), |i: int| slots[i]@)
}

impl<'a> View for OpPut<'a> {
    type V = OpPutView;

    open spec fn view(&self) -> OpPutView {
        OpPutView { retention: self.retention, slots: put_slots_view(self.slots@) }
    }
}

impl OpPutView {
    /// The object that the request asks for.
    pub open spec fn spec(self) -> ObjectSpecView {
        ObjectSpecView {
            retention: self.retention,
            slots: Seq::new(self.slots.len(), |i: int| self.slots[i].spec),
        }
    }

    /// The first thing wrong with the sources of the first `n` slots.
    pub open spec fn source_error(self, n: nat) -> Option<ErrorView>
        decreases n,
    {
        if n == 0 {
            None
        } else {
            match self.source_error((n - 1) as nat) {
                Some(e) => Some(e),
                None => match checked_iovs(
                    self.slots[n - 1].src,
                    Some(self.slots[n - 1].spec.len),
                ) {
                    Ok(_) => None,
                    Err(e) => Some(e.with_context("slot"@, text::decimal((n - 1) as nat))),
                },
            }
        }
    }

    /// The first thing wrong with the request.
    pub open spec fn error(self) -> Option<ErrorView> {
        if self.slots.len() == 0 {
            Some(ErrorView::new(ErrorKind::InvalidInput, "object needs at least one slot"@))
        } else {
            self.source_error(self.slots.len())
        }
    }
}

/// `Ok` where there is nothing wrong.
pub open spec fn verdict(e: Option<ErrorView>) -> Result<(), ErrorView> {
    match e {
        None => Ok(()),
        Some(e) => Err(e),
    }
}

proof fn lemma_source_error_stays(op: OpPutView, n: nat, m: nat)
    requires
        n <= m,
        op.source_error(n) is Some,
    ensures
        op.source_error(m) == op.source_error(n),
    decreases m,
{
    if n < m {
        lemma_source_error_stays(op, n, (m - 1) as nat);
    }
}

/// In a sound request every slot's sources pass, and add up to its length.
pub proof fn lemma_sound_put(op: OpPutView, i: int)
    requires
        op.error() is None,
        0 <= i < op.slots.len(),
    ensures
        checked_iovs(op.slots[i].src, Some(op.slots[i].spec.len)) is Ok,
        region::iov_total(op.slots[i].src) == op.slots[i].spec.len,
{
    if op.source_error((i + 1) as nat) is Some {
        lemma_source_error_stays(op, (i + 1) as nat, op.slots.len());
    }
    law_iovs_pass_exactly_if_sound(op.slots[i].src, Some(op.slots[i].spec.len));
}

impl<'a> OpPut<'a> {
    pub fn new(slots: Vec<PutSlot<'a>>) -> (r: Self)
        ensures
            r@ == (OpPutView { retention: Retention::Cache, slots: put_slots_view(slots@) }),
    {
        Self { retention: Retention::Cache, slots }
    }

    pub fn with_retention(self, retention: Retention) -> (r: Self)
        ensures
            r@ == (OpPutView { retention, ..self@ }),
    {
        Self { retention, slots: self.slots }
    }

    pub fn spec(&self) -> (r: ObjectSpec)
        ensures
            r@ == self@.spec(),
    {
        let mut slots: Vec<SlotSpec> = Vec::new();
        for i in 0..self.slots.len()
            invariant
                types::slot_specs_view(slots@) == self@.spec().slots.take(i as int),
        {
            let ghost before = types::slot_specs_view(slots@);
            slots.push(self.slots[i].spec.clone());
            assert(types::slot_specs_view(slots@) =~= before.push(self.slots@[i as int].spec@));
            assert(types::slot_specs_view(slots@) =~= self@.spec().slots.take(i + 1));
        }
        assert(types::slot_specs_view(slots@) =~= self@.spec().slots);
        ObjectSpec { retention: self.retention, slots }
    }

    pub fn validate(&self) -> (r: Result<(), Error>)
        ensures
            error::result_view(r) == verdict(self@.error()),
    {
        if self.slots.is_empty() {
            return Err(Error::new(ErrorKind::InvalidInput, "object needs at least one slot"));
        }
        for i in 0..self.slots.len()
            invariant
                self@.source_error(i as nat) is None,
        {
            let slot = &self.slots[i];
            assert(self@.slots[i as int] == slot@);
            match validate_iovs(slot.src, Some(slot.spec.len)) {
                Ok(_) => {},
                Err(e) => {
                    proof {
                        lemma_source_error_stays(self@, (i + 1) as nat, self@.slots.len());
                    }
                    return Err(e.with_context("slot", decimal_string(i as u64)));
                },
            }
        }
        Ok(())
    }
}

/// Per-slot outcome of a `put`. The object-level `Result` is reserved for
/// failures that apply to the whole request (`SpecMismatch`, `Unavailable`, ...).
#[derive(Debug)]
pub struct RpPut {
    pub slots: Vec<Result<(), Error>>,
}

impl View for RpPut {
    type V = Seq<Result<(), ErrorView>>;

    open spec fn view(&self) -> Seq<Result<(), ErrorView>> {
        error::results_view(self.slots@)
    }
}

/// The first error among the first `n` results.
pub open spec fn first_error(slots: Seq<Result<(), ErrorView>>, n: nat) -> Option<ErrorView>
    decreases n,
{
    if n == 0 {
        None
    } else {
        match first_error(slots, (n - 1) as nat) {
            Some(e) => Some(e),
            None => match slots[n - 1] {
                Ok(_) => None,
                Err(e) => Some(e),
            },
        }
    }
}

proof fn lemma_first_error_stays(slots: Seq<Result<(), ErrorView>>, n: nat, m: nat)
    requires
        n <= m,
        first_error(slots, n) is Some,
    ensures
        first_error(slots, m) == first_error(slots, n),
    decreases m,
{
    if n < m {
        lemma_first_error_stays(slots, n, (m - 1) as nat);
    }
}

impl RpPut {
    pub fn all_ok(&self) -> (r: bool)
        ensures
            r == (forall|i: int| 0 <= i < self@.len() ==> (#[trigger] self@[i]) is Ok),
    {
        for i in 0..self.slots.len()
            invariant
                forall|j: int| 0 <= j < i ==> (#[trigger] self@[j]) is Ok,
        {
            if self.slots[i].is_err() {
                assert(self@[i as int] is Err);
                return false;
            }
        }
        true
    }

    /// Collapse to the first per-slot error, if any.
    pub fn into_result(self) -> (r: Result<(), Error>)
        ensures
            error::result_view(r) == verdict(first_error(self@, self@.len())),
    {
        let ghost all = self@;
        let mut i: usize = 0;
        let mut slots = self.slots;
        while i < slots.len()
            invariant
                i <= slots@.len(),
                all == self@,
                all == error::results_view(slots@),
                first_error(all, i as nat) is None,
            decreases slots@.len() - i,
        {
            if slots[i].is_err() {
                proof {
                    lemma_first_error_stays(all, (i + 1) as nat, all.len());
                }
                assert(all[i as int] == error::result_view(slots@[i as int]));
                return slots.swap_remove(i);
            }
            assert(all[i as int] == error::result_view(slots@[i as int]));
            i = i + 1;
        }
        Ok(())
    }
}

#[derive(Debug)]
pub struct OpGet<'a> {
    pub slot: SlotIdx,
    pub src_offset: u64,
    pub dst: &'a [Iov<'a>],
}

pub struct OpGetView {
    pub slot: SlotIdx,
    pub src_offset: u64,
    pub dst: Seq<IovView>,
}

impl<'a> View for OpGet<'a> {
    type V = OpGetView;

    open spec fn view(&self) -> OpGetView {
        OpGetView { slot: self.slot, src_offset: self.src_offset, dst: region::iov_views(self.dst@) }
    }
}

impl<'a> OpGet<'a> {
    pub fn new(slot: SlotIdx, dst: &'a [Iov<'a>]) -> (r: Self)
        ensures
            r@ == (OpGetView { slot, src_offset: 0, dst: region::iov_views(dst@) }),
    {
        Self { slot, src_offset: 0, dst }
    }

    pub fn with_src_offset(self, src_offset: u64) -> (r: Self)
        ensures
            r@ == (OpGetView { src_offset, ..self@ }),
    {
        Self { slot: self.slot, src_offset, dst: self.dst }
    }

    /// Returns the destination device and total length.
    pub fn validate(&self) -> (r: Result<(Device, u64), Error>)
        ensures
            error::result_view(r) == checked_iovs(self@.dst, None),
    {
        validate_iovs(self.dst, None)
    }
}

#[derive(Copy, Clone, Debug, PartialEq, Eq, Structural)]
pub struct RpGet {
    /// Which replica served the read.
    pub from: Location,
}

#[derive(Debug)]
pub struct OpPublish<'a> {
    pub slot: SlotIdx,
    pub src: &'a [Iov<'a>],
}

pub struct OpPublishView {
    pub slot: SlotIdx,
    pub src: Seq<IovView>,
}

impl<'a> View for OpPublish<'a> {
    type V = OpPublishView;

    open spec fn view(&self) -> OpPublishView {
        OpPublishView { slot: self.slot, src: region::iov_views(self.src@) }
    }
}

impl<'a> OpPublish<'a> {
    pub fn new(slot: SlotIdx, src: &'a [Iov<'a>]) -> (r: Self)
        ensures
            r@ == (OpPublishView { slot, src: region::iov_views(src@) }),
    {
        Self { slot, src }
    }

    pub fn validate(&self) -> (r: Result<(Device, u64), Error>)
        ensures
            error::result_view(r) == checked_iovs(self@.src, None),
    {
        validate_iovs(self.src, None)
    }
}

} // verus!
