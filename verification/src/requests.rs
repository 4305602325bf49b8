//! What requests, their memory and their replies promise.
use vstd::prelude::*;

use crate::error::{ErrorKind, ErrorStatus, ErrorView};
use crate::numerals;
use crate::ops;
use crate::ops::OpPutView;
use crate::region;
use crate::region::IovView;
use crate::text;
use crate::types;
use crate::types::{Device, ObjectInfoView, SlotIdx};

verus! {

// ---- memory ----

/// A segment lies in its region exactly if it ends there, and its bytes are then
/// bytes of the region, from its offset on.
pub proof fn law_segments_lie_in_their_region(iov: IovView)
    ensures
        iov.in_bounds() <==> iov.offset + iov.len <= iov.region.len,
        iov.region.addr + iov.offset <= u64::MAX ==> iov.addr() == iov.region.addr + iov.offset,
{
}

/// The segments of a list are those of its parts, in order, and its length is
/// the sum of theirs.
pub proof fn law_lists_are_their_parts(a: Seq<IovView>, b: Seq<IovView>)
    ensures
        region::segments(a + b) == region::segments(a) + region::segments(b),
        region::iov_total(a + b) == region::iov_total(a) + region::iov_total(b),
        forall|i: int|
            0 <= i < a.len() ==> #[trigger] region::segments(a)[i] == (a[i].addr(), a[i].len),
        a.len() == 1 ==> region::iov_total(a) == a[0].len,
        a.len() == 0 ==> region::iov_total(a) == 0,
{
    assert(region::segments(a + b) =~= region::segments(a) + region::segments(b));
    lemma_total_add(region::segments(a), region::segments(b));
    if a.len() == 1 {
        let s = region::segments(a);
        assert(s.drop_last() =~= Seq::<(u64, u64)>::empty());
        assert(region::total_len(s.drop_last()) == 0);
    }
}

proof fn lemma_total_add(a: Seq<(u64, u64)>, b: Seq<(u64, u64)>)
    ensures
        region::total_len(a + b) == region::total_len(a) + region::total_len(b),
    decreases b.len(),
{
    if b.len() == 0 {
        assert(a + b =~= a);
    } else {
        assert((a + b).drop_last() =~= a + b.drop_last());
        lemma_total_add(a, b.drop_last());
    }
}

/// Bytes are gathered in order: those of the first segment first, each segment
/// from its first address on.
pub proof fn law_bytes_are_gathered_in_order(
    mem: Map<u64, u8>,
    segs: Seq<(u64, u64)>,
    i: int,
    x: int,
)
    requires
        0 <= i < segs.len(),
        0 <= x < segs[i].1,
        segs[i].0 + x <= u64::MAX,
    ensures
        region::gathered(mem, segs).len() == region::total_len(segs),
        region::total_len(segs.take(i)) + x < region::total_len(segs),
        region::gathered(mem, segs)[region::total_len(segs.take(i)) + x] == mem[(segs[i].0
            + x) as u64],
    decreases segs.len(),
{
    let before = segs.drop_last();
    region::lemma_gathered_len(mem, segs);
    region::lemma_gathered_len(mem, before);
    if i < before.len() {
        law_bytes_are_gathered_in_order(mem, before, i, x);
        assert(before.take(i) =~= segs.take(i));
    } else {
        assert(segs.take(i) =~= before);
    }
}

/// Bytes are dealt out in order too, and no other byte is touched: where no
/// address lies in two segments, each one gets the byte that is its own.
pub proof fn law_bytes_are_scattered_in_order(
    mem: Map<u64, u8>,
    segs: Seq<(u64, u64)>,
    src: Seq<u8>,
    i: int,
    x: int,
    a: u64,
)
    requires
        0 <= i < segs.len(),
        0 <= x < segs[i].1,
        segs[i].0 + x <= u64::MAX,
        region::total_len(segs) <= src.len(),
        region::segs_disjoint(segs),
    ensures
        region::total_len(segs.take(i)) + x < src.len(),
        region::scattered(mem, segs, src)[(segs[i].0 + x) as u64] == src[region::total_len(
            segs.take(i),
        ) + x],
        mem.contains_key(a) && (forall|j: int|
            0 <= j < segs.len() ==> !#[trigger] region::in_seg(segs[j], a as int))
            ==> region::scattered(mem, segs, src)[a] == mem[a],
{
    lemma_untouched(mem, segs, src, a);
    lemma_scattered_at(mem, segs, src, i, x);
}

proof fn lemma_scattered_at(
    mem: Map<u64, u8>,
    segs: Seq<(u64, u64)>,
    src: Seq<u8>,
    i: int,
    x: int,
)
    requires
        0 <= i < segs.len(),
        0 <= x < segs[i].1,
        segs[i].0 + x <= u64::MAX,
        region::total_len(segs) <= src.len(),
        region::segs_disjoint(segs),
    ensures
        region::total_len(segs.take(i)) + x < src.len(),
        region::scattered(mem, segs, src).contains_key((segs[i].0 + x) as u64),
        region::scattered(mem, segs, src)[(segs[i].0 + x) as u64] == src[region::total_len(
            segs.take(i),
        ) + x],
    decreases segs.len(),
{
    let before = segs.drop_last();
    let n = before.len() as int;
    if i < n {
        assert(region::segs_disjoint(before)) by {
            assert forall|p: int, q: int, y: int|
                0 <= p < q < before.len() && #[trigger] region::in_seg(
                    before[p],
                    y,
                ) implies !#[trigger] region::in_seg(before[q], y) by {
                assert(region::in_seg(segs[p], y));
                assert(!region::in_seg(segs[q], y));
            }
        }
        lemma_scattered_at(mem, before, src, i, x);
        assert(before.take(i) =~= segs.take(i));
        assert(region::in_seg(segs[i], segs[i].0 + x));
        assert(!region::in_seg(segs[n], segs[i].0 + x));
    } else {
        assert(segs.take(i) =~= before);
    }
}

proof fn lemma_untouched(mem: Map<u64, u8>, segs: Seq<(u64, u64)>, src: Seq<u8>, a: u64)
    requires
        region::total_len(segs) <= src.len(),
    ensures
        mem.contains_key(a) ==> region::scattered(mem, segs, src).contains_key(a),
        mem.contains_key(a) && (forall|j: int|
            0 <= j < segs.len() ==> !#[trigger] region::in_seg(segs[j], a as int))
            ==> region::scattered(mem, segs, src)[a] == mem[a],
    decreases segs.len(),
{
    if segs.len() > 0 {
        let before = segs.drop_last();
        lemma_untouched(mem, before, src, a);
        if forall|j: int| 0 <= j < segs.len() ==> !#[trigger] region::in_seg(segs[j], a as int) {
            assert forall|j: int| 0 <= j < before.len() implies !#[trigger] region::in_seg(
                before[j],
                a as int,
            ) by {
                assert(!region::in_seg(segs[j], a as int));
            }
            assert(!region::in_seg(segs[segs.len() - 1], a as int));
        }
    }
}

// ---- requests ----

proof fn lemma_scan_kind(iovs: Seq<IovView>, n: nat)
    ensures
        ops::scanned(iovs, n) matches Err(e) ==> e.kind == ErrorKind::InvalidInput && e.status
            == ErrorStatus::Permanent,
    decreases n,
{
    if n > 0 {
        lemma_scan_kind(iovs, (n - 1) as nat);
    }
}

/// A list that does not pass is invalid, and stays so.
pub proof fn law_bad_lists_are_invalid_input(iovs: Seq<IovView>, expect: Option<u64>)
    ensures
        ops::checked_iovs(iovs, expect) matches Err(e) ==> e.kind == ErrorKind::InvalidInput
            && e.status == ErrorStatus::Permanent,
{
    lemma_scan_kind(iovs, iovs.len());
}

/// Whether the sources of every slot of a request are sound, and as long as the
/// slot.
pub open spec fn all_sound(op: OpPutView) -> bool {
    forall|i: int|
        0 <= i < op.slots.len() ==> ops::checked_iovs(
            (#[trigger] op.slots[i]).src,
            Some(op.slots[i].spec.len),
        ) is Ok
}

proof fn lemma_source_errors(op: OpPutView, n: nat)
    requires
        n <= op.slots.len(),
    ensures
        op.source_error(n) is None <==> forall|i: int|
            0 <= i < n ==> ops::checked_iovs(
                (#[trigger] op.slots[i]).src,
                Some(op.slots[i].spec.len),
            ) is Ok,
        op.source_error(n) matches Some(e) ==> e.kind == ErrorKind::InvalidInput,
    decreases n,
{
    if n > 0 {
        lemma_source_errors(op, (n - 1) as nat);
        let slot = op.slots[n - 1];
        law_bad_lists_are_invalid_input(slot.src, Some(slot.spec.len));
    }
}

/// A request to write passes exactly if it has a slot and every slot has sound
/// sources of its length; it is invalid otherwise.
pub proof fn law_writes_pass_exactly_if_sound(op: OpPutView)
    ensures
        op.error() is None <==> op.slots.len() > 0 && all_sound(op),
        op.error() matches Some(e) ==> e.kind == ErrorKind::InvalidInput,
{
    lemma_source_errors(op, op.slots.len());
}

/// An object is what was asked for: the retention of the request, and a slot for
/// each of its slots.
pub proof fn law_objects_are_as_asked(op: OpPutView, i: int)
    requires
        0 <= i < op.slots.len(),
    ensures
        op.spec().retention == op.retention,
        op.spec().slots.len() == op.slots.len(),
        op.spec().slots[i].len == op.slots[i].spec.len,
        op.spec().slots[i].placement == op.slots[i].spec.placement,
{
}

// ---- replies ----

/// A reply collapses to its first error, and to none exactly if it has none.
pub proof fn law_replies_collapse_to_the_first_error(
    slots: Seq<Result<(), ErrorView>>,
    n: nat,
    i: int,
)
    requires
        0 <= i < n <= slots.len(),
        forall|j: int| 0 <= j < i ==> (#[trigger] slots[j]) is Ok,
    ensures
        slots[i] matches Err(e) ==> ops::first_error(slots, n) == Some(e),
        ops::first_error(slots, n) is None ==> slots[i] is Ok,
        (forall|j: int| 0 <= j < n ==> (#[trigger] slots[j]) is Ok) ==> ops::first_error(slots, n)
            is None,
    decreases n,
{
    if i < n - 1 {
        law_replies_collapse_to_the_first_error(slots, (n - 1) as nat, i);
    } else {
        lemma_no_error(slots, (n - 1) as nat);
    }
}

proof fn lemma_no_error(slots: Seq<Result<(), ErrorView>>, n: nat)
    requires
        n <= slots.len(),
        forall|j: int| 0 <= j < n ==> (#[trigger] slots[j]) is Ok,
    ensures
        ops::first_error(slots, n) is None,
    decreases n,
{
    if n > 0 {
        lemma_no_error(slots, (n - 1) as nat);
    }
}

/// The slots that are listed as resident are those with a replica, each once,
/// ascending.
pub proof fn law_resident_slots_have_replicas(info: ObjectInfoView, n: nat, i: u32)
    requires
        n <= info.slots.len(),
        n <= u32::MAX,
    ensures
        info.resident(n).contains(SlotIdx(i)) <==> i < n && info.slots[i as int].replicas.len() > 0,
        forall|a: int, b: int|
            0 <= a < b < info.resident(n).len() ==> (#[trigger] info.resident(n)[a]).0 < (
            #[trigger] info.resident(n)[b]).0,
    decreases n,
{
    if n > 0 {
        let before = info.resident((n - 1) as nat);
        let now = info.resident(n);
        law_resident_slots_have_replicas(info, (n - 1) as nat, i);
        if now.contains(SlotIdx(i)) {
            let c = now.index_of(SlotIdx(i));
            if c < before.len() {
                assert(before[c] == SlotIdx(i));
            }
        }
        if i < n && info.slots[i as int].replicas.len() > 0 {
            if i < n - 1 {
                let c = before.index_of(SlotIdx(i));
                assert(now[c] == SlotIdx(i));
            } else {
                assert(now[now.len() - 1] == SlotIdx(i));
            }
        }
        assert forall|a: int, b: int| 0 <= a < b < now.len() implies (#[trigger] now[a]).0 < (
        #[trigger] now[b]).0 by {
            assert(now[a] == before[a]);
            if b < before.len() {
                assert(now[b] == before[b]);
            } else {
                law_resident_slots_have_replicas(info, (n - 1) as nat, before[a].0);
                assert(before.contains(before[a]));
            }
        }
    }
}

// ---- keys and devices ----

/// A key starts with a prefix exactly if it is the prefix and something behind.
pub proof fn law_prefixes_are_in_front(key: Seq<u8>, prefix: Seq<u8>, rest: Seq<u8>)
    ensures
        types::starts_with(prefix + rest, prefix),
        types::starts_with(key, prefix) ==> key == prefix + key.skip(prefix.len() as int),
        types::starts_with(key, Seq::empty()),
{
    assert((prefix + rest).take(prefix.len() as int) =~= prefix);
    assert(key.take(0) =~= Seq::<u8>::empty());
    if types::starts_with(key, prefix) {
        assert(key =~= prefix + key.skip(prefix.len() as int));
    }
}

/// Devices are named apart.
pub proof fn law_devices_are_named_apart(a: Device, b: Device)
    ensures
        types::device_text(a) == types::device_text(b) ==> a == b,
        types::device_text(a).take(4) == if a is Cpu {
            "cpu:"@
        } else {
            "gpu:"@
        },
{
    reveal_strlit("cpu:");
    reveal_strlit("gpu:");
    let x = types::device_text(a);
    let y = types::device_text(b);
    assert(x.take(4) =~= if a is Cpu {
        "cpu:"@
    } else {
        "gpu:"@
    });
    assert(y.take(4) =~= if b is Cpu {
        "cpu:"@
    } else {
        "gpu:"@
    });
    assert("cpu:"@[0] == 'c' && "gpu:"@[0] == 'g');
    if x == y {
        assert(x.take(4)[0] == y.take(4)[0]);
        let m = match a {
            Device::Cpu { numa } => numa as nat,
            Device::Gpu { index } => index as nat,
        };
        let n = match b {
            Device::Cpu { numa } => numa as nat,
            Device::Gpu { index } => index as nat,
        };
        assert(x.skip(4) =~= text::decimal(m));
        assert(y.skip(4) =~= text::decimal(n));
        numerals::law_numbers_are_written_apart(m, n);
    }
}

} // verus!
