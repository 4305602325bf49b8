//! Registered memory and I/O vectors. All bytes enter and leave the store
//! through an `Iov` into a `MemoryRegion`; there is no unregistered slow path.
use std::collections::HashMap;

use vstd::prelude::*;

use crate::types::Device;

verus! {

broadcast use vstd::std_specs::hash::group_hash_axioms;

/// Hands out region ids: 1, 2, 3, ...
pub struct RegionIds {
    next: u64,
}

impl View for RegionIds {
    type V = u64;

    closed spec fn view(&self) -> u64 {
        self.next
    }
}

impl RegionIds {
    pub fn new() -> (r: Self)
        ensures
            r@ == 1,
    {
        RegionIds { next: 1 }
    }
}

/// A user buffer registered with a backend: where it is, how long it is and
/// which device it is accessible from.
#[derive(Debug)]
pub struct MemoryRegion {
    id: u64,
    addr: u64,
    len: u64,
    device: Device,
}

pub struct RegionView {
    pub id: u64,
    pub addr: u64,
    pub len: u64,
    pub device: Device,
}

impl View for MemoryRegion {
    type V = RegionView;

    closed spec fn view(&self) -> RegionView {
        RegionView { id: self.id, addr: self.addr, len: self.len, device: self.device }
    }
}

impl MemoryRegion {
    /// Allocate a fresh region id. Backends that need the id before building
    /// the region call this first.
    pub fn next_id(ids: &mut RegionIds) -> (r: u64)
        ensures
            r == old(ids)@,
            final(ids)@ == old(ids)@.wrapping_add(1),
    {
        let id = ids.next;
        ids.next = ids.next.wrapping_add(1);
        id
    }

    pub fn with_id(id: u64, addr: u64, len: u64, device: Device) -> (r: Self)
        ensures
            r@ == (RegionView { id, addr, len, device }),
    {
        Self { id, addr, len, device }
    }

    pub fn new(ids: &mut RegionIds, addr: u64, len: u64, device: Device) -> (r: Self)
        ensures
            r@ == (RegionView { id: old(ids)@, addr, len, device }),
            final(ids)@ == old(ids)@.wrapping_add(1),
    {
        let id = MemoryRegion::next_id(ids);
        MemoryRegion::with_id(id, addr, len, device)
    }

    pub fn id(&self) -> (r: u64)
        ensures
            r == self@.id,
    {
        self.id
    }

    /// The address of the first byte.
    pub fn as_ptr(&self) -> (r: u64)
        ensures
            r == self@.addr,
    {
        self.addr
    }

    pub fn len(&self) -> (r: u64)
        ensures
            r == self@.len,
    {
        self.len
    }

    pub fn is_empty(&self) -> (r: bool)
        ensures
            r == (self@.len == 0),
    {
        self.len == 0
    }

    pub fn device(&self) -> (r: Device)
        ensures
            r == self@.device,
    {
        self.device
    }

    /// A sub-range of this region. Bounds are checked by `validate_iovs`,
    /// not here.
    pub fn iov(&self, offset: u64, len: u64) -> (r: Iov<'_>)
        ensures
            r@ == (IovView { region: self@, offset, len }),
    {
        Iov { region: self, offset, len }
    }

    pub fn iov_all(&self) -> (r: Iov<'_>)
        ensures
            r@ == (IovView { region: self@, offset: 0, len: self@.len }),
    {
        self.iov(0, self.len)
    }
}

/// One contiguous segment of a registered region.
#[derive(Clone, Copy, Debug)]
pub struct Iov<'a> {
    pub region: &'a MemoryRegion,
    pub offset: u64,
    pub len: u64,
}

pub struct IovView {
    pub region: RegionView,
    pub offset: u64,
    pub len: u64,
}

impl<'a> View for Iov<'a> {
    type V = IovView;

    open spec fn view(&self) -> IovView {
        IovView { region: self.region@, offset: self.offset, len: self.len }
    }
}

impl IovView {
    /// The address of the segment's first byte.
    pub open spec fn addr(self) -> u64 {
        self.region.addr.wrapping_add(self.offset)
    }

    pub open spec fn in_bounds(self) -> bool {
        self.offset + self.len <= self.region.len
    }
}

impl<'a> Iov<'a> {
    /// The address of the segment's first byte.
    pub fn as_ptr(&self) -> (r: u64)
        ensures
            r == self@.addr(),
    {
        self.region.as_ptr().wrapping_add(self.offset)
    }

    pub fn end(&self) -> (r: u64)
        ensures
            r == if self@.offset + self@.len > u64::MAX {
                u64::MAX as int
            } else {
                self@.offset + self@.len
            },
    {
        self.offset.saturating_add(self.len)
    }

    pub fn in_bounds(&self) -> (r: bool)
        ensures
            r == self@.in_bounds(),
    {
        match self.offset.checked_add(self.len) {
            Some(e) => e <= self.region.len(),
            None => false,
        }
    }

    pub fn device(&self) -> (r: Device)
        ensures
            r == self@.region.device,
    {
        self.region.device()
    }
}

/// The views of a gather/scatter list.
pub open spec fn iov_views(iovs: Seq<Iov<'_>>) -> Seq<IovView> {
    Seq::new(iovs.len(), |i: int| iovs[i]@)
}

/// A list of segments as (address, length) pairs.
pub open spec fn segments(iovs: Seq<IovView>) -> Seq<(u64, u64)> {
    Seq::new(iovs.len(), |i: int| (iovs[i].addr(), iovs[i].len))
}

/// The sum of the lengths of a list of segments.
pub open spec fn total_len(segs: Seq<(u64, u64)>) -> nat
    decreases segs.len(),
{
    if segs.len() == 0 {
        0
    } else {
        total_len(segs.drop_last()) + segs.last().1 as nat
    }
}

/// The sum of the lengths of a gather/scatter list.
pub open spec fn iov_total(iovs: Seq<IovView>) -> nat {
    total_len(segments(iovs))
}

/// Whether every byte of the range is there to be read and written.
pub open spec fn range_mapped(mem: Map<u64, u8>, addr: u64, len: u64) -> bool {
    &&& addr + len <= u64::MAX + 1
    &&& forall|a: u64| addr <= a < addr + len ==> #[trigger] mem.contains_key(a)
}

pub open spec fn segs_mapped(mem: Map<u64, u8>, segs: Seq<(u64, u64)>) -> bool {
    forall|i: int| 0 <= i < segs.len() ==> range_mapped(mem, (#[trigger] segs[i]).0, segs[i].1)
}

/// The bytes of one range, in order.
pub open spec fn range_bytes(mem: Map<u64, u8>, addr: u64, len: u64) -> Seq<u8> {
    Seq::new(len as nat, |i: int| mem[(addr + i) as u64])
}

/// The bytes of a list of segments, one segment after the other.
pub open spec fn gathered(mem: Map<u64, u8>, segs: Seq<(u64, u64)>) -> Seq<u8>
    decreases segs.len(),
{
    if segs.len() == 0 {
        Seq::empty()
    } else {
        gathered(mem, segs.drop_last()) + range_bytes(mem, segs.last().0, segs.last().1)
    }
}

/// Memory after `bytes` were written from `addr` on.
pub open spec fn written(mem: Map<u64, u8>, addr: u64, bytes: Seq<u8>) -> Map<u64, u8> {
    Map::new(
        |a: u64| mem.contains_key(a) || addr <= a < addr + bytes.len(),
        |a: u64|
            if addr <= a < addr + bytes.len() {
                bytes[a - addr]
            } else {
                mem[a]
            },
    )
}

/// Memory after `src` was dealt out over a list of segments, from the first to
/// the last.
pub open spec fn scattered(mem: Map<u64, u8>, segs: Seq<(u64, u64)>, src: Seq<u8>) -> Map<u64, u8>
    decreases segs.len(),
{
    if segs.len() == 0 {
        mem
    } else {
        let off = total_len(segs.drop_last()) as int;
        written(
            scattered(mem, segs.drop_last(), src),
            segs.last().0,
            src.subrange(off, off + segs.last().1),
        )
    }
}

/// The memory that registered regions point into: a byte for every mapped
/// address.
pub struct HostMemory {
    bytes: HashMap<u64, u8>,
}

impl View for HostMemory {
    type V = Map<u64, u8>;

    closed spec fn view(&self) -> Map<u64, u8> {
        self.bytes@
    }
}

impl HostMemory {
    pub fn new() -> (r: Self)
        ensures
            r@ == Map::<u64, u8>::empty(),
    {
        HostMemory { bytes: HashMap::new() }
    }

    /// Write `bytes` from `addr` on, mapping what is not mapped yet.
    pub fn write(&mut self, addr: u64, bytes: &[u8])
        requires
            addr + bytes@.len() <= u64::MAX + 1,
        ensures
            final(self)@ == written(old(self)@, addr, bytes@),
    {
        assert(written(self@, addr, bytes@.take(0)) =~= self@);
        for i in 0..bytes.len()
            invariant
                addr + bytes@.len() <= u64::MAX + 1,
                self@ == written(old(self)@, addr, bytes@.take(i as int)),
        {
            let ghost before = self@;
            self.bytes.insert(addr + i as u64, bytes[i]);
            assert(self@ =~= before.insert((addr + i) as u64, bytes@[i as int]));
            assert(self@ =~= written(old(self)@, addr, bytes@.take(i + 1)));
        }
        assert(bytes@.take(bytes@.len() as int) =~= bytes@);
    }

    /// The bytes of a mapped range.
    pub fn read(&self, addr: u64, len: u64) -> (r: Vec<u8>)
        requires
            range_mapped(self@, addr, len),
        ensures
            r@ == range_bytes(self@, addr, len),
    {
        let mut out: Vec<u8> = Vec::new();
        for i in 0..len
            invariant
                range_mapped(self@, addr, len),
                out@ == range_bytes(self@, addr, i),
        {
            assert(self@.contains_key((addr + i) as u64));
            let b: u8 = *self.bytes.get(&(addr + i)).unwrap();
            out.push(b);
            assert(out@ =~= range_bytes(self@, addr, (i + 1) as u64));
        }
        out
    }
}

/// The bytes that a gather list points at.
pub fn gather(mem: &HostMemory, iovs: &[Iov<'_>]) -> (r: Vec<u8>)
    requires
        segs_mapped(mem@, segments(iov_views(iovs@))),
    ensures
        r@ == gathered(mem@, segments(iov_views(iovs@))),
{
    let ghost segs = segments(iov_views(iovs@));
    let mut out: Vec<u8> = Vec::new();
    for i in 0..iovs.len()
        invariant
            segs == segments(iov_views(iovs@)),
            segs_mapped(mem@, segs),
            out@ == gathered(mem@, segs.take(i as int)),
    {
        assert(segs[i as int] == (iovs@[i as int]@.addr(), iovs@[i as int].len));
        let mut part = mem.read(iovs[i].as_ptr(), iovs[i].len);
        out.append(&mut part);
        assert(segs.take(i + 1).drop_last() =~= segs.take(i as int));
    }
    assert(segs.take(segs.len() as int) =~= segs);
    out
}

pub proof fn lemma_total_len_grows(segs: Seq<(u64, u64)>, n: int)
    requires
        0 <= n <= segs.len(),
    ensures
        total_len(segs.take(n)) <= total_len(segs),
    decreases segs.len() - n,
{
    if n < segs.len() {
        lemma_total_len_grows(segs, n + 1);
        assert(segs.take(n + 1).drop_last() =~= segs.take(n));
    } else {
        assert(segs.take(n) =~= segs);
    }
}

/// Deal `src` out over the segments of a scatter list.
pub fn scatter(mem: &mut HostMemory, src: &[u8], iovs: &[Iov<'_>])
    requires
        segs_mapped(old(mem)@, segments(iov_views(iovs@))),
        iov_total(iov_views(iovs@)) == src@.len(),
    ensures
        final(mem)@ == scattered(old(mem)@, segments(iov_views(iovs@)), src@),
{
    let ghost segs = segments(iov_views(iovs@));
    let mut off: usize = 0;
    for i in 0..iovs.len()
        invariant
            segs == segments(iov_views(iovs@)),
            segs_mapped(old(mem)@, segs),
            total_len(segs) == src@.len(),
            off == total_len(segs.take(i as int)),
            mem@ == scattered(old(mem)@, segs.take(i as int), src@),
    {
        assert(segs[i as int] == (iovs@[i as int]@.addr(), iovs@[i as int].len));
        assert(segs.take(i + 1).drop_last() =~= segs.take(i as int));
        proof {
            lemma_total_len_grows(segs, i + 1);
        }
        assert(total_len(segs.take(i + 1)) == off + iovs@[i as int].len);
        assert(src@.len() == src.len());
        let n: usize = iovs[i].len as usize;
        let part = vstd::slice::slice_subrange(src, off, off + n);
        mem.write(iovs[i].as_ptr(), part);
        off = off + n;
    }
    assert(segs.take(segs.len() as int) =~= segs);
}

/// Whether an address lies in a segment.
pub open spec fn in_seg(seg: (u64, u64), x: int) -> bool {
    seg.0 <= x < seg.0 + seg.1
}

/// Whether no address lies in two of the segments.
pub open spec fn segs_disjoint(segs: Seq<(u64, u64)>) -> bool {
    forall|i: int, j: int, x: int|
        0 <= i < j < segs.len() && #[trigger] in_seg(segs[i], x) ==> !#[trigger] in_seg(segs[j], x)
}

pub proof fn lemma_gathered_len(mem: Map<u64, u8>, segs: Seq<(u64, u64)>)
    ensures
        gathered(mem, segs).len() == total_len(segs),
    decreases segs.len(),
{
    if segs.len() > 0 {
        lemma_gathered_len(mem, segs.drop_last());
    }
}

/// The first segments hold the first bytes.
pub proof fn lemma_gathered_take(mem: Map<u64, u8>, segs: Seq<(u64, u64)>, n: int)
    requires
        0 <= n <= segs.len(),
    ensures
        gathered(mem, segs.take(n)) == gathered(mem, segs).take(total_len(segs.take(n)) as int),
    decreases segs.len() - n,
{
    lemma_gathered_len(mem, segs.take(n));
    if n < segs.len() {
        lemma_gathered_take(mem, segs, n + 1);
        lemma_gathered_len(mem, segs.take(n + 1));
        lemma_total_len_grows(segs, n + 1);
        lemma_gathered_len(mem, segs);
        assert(segs.take(n + 1).drop_last() =~= segs.take(n));
        assert(gathered(mem, segs.take(n)) =~= gathered(mem, segs).take(
            total_len(segs.take(n)) as int,
        ));
    } else {
        assert(segs.take(n) =~= segs);
        assert(gathered(mem, segs).take(total_len(segs) as int) =~= gathered(mem, segs));
    }
}

/// Writing a range that no segment touches changes nothing of what the
/// segments hold.
proof fn lemma_gathered_frame(
    mem: Map<u64, u8>,
    segs: Seq<(u64, u64)>,
    addr: u64,
    bytes: Seq<u8>,
)
    requires
        segs_mapped(mem, segs),
        forall|i: int, x: int|
            0 <= i < segs.len() && #[trigger] in_seg(segs[i], x) ==> !(addr <= x < addr
                + bytes.len()),
    ensures
        gathered(written(mem, addr, bytes), segs) == gathered(mem, segs),
    decreases segs.len(),
{
    if segs.len() > 0 {
        let before = segs.drop_last();
        assert forall|i: int| 0 <= i < before.len() implies (#[trigger] before[i]) == segs[i] by {}
        assert forall|i: int, x: int|
            0 <= i < before.len() && #[trigger] in_seg(before[i], x) implies !(addr <= x < addr
            + bytes.len()) by {
            assert(in_seg(segs[i], x));
        }
        lemma_gathered_frame(mem, before, addr, bytes);
        let last = segs.last();
        assert(last == segs[segs.len() - 1]);
        assert(range_bytes(written(mem, addr, bytes), last.0, last.1) =~= range_bytes(
            mem,
            last.0,
            last.1,
        )) by {
            assert forall|a: u64| last.0 <= a < last.0 + last.1 implies #[trigger] written(
                mem,
                addr,
                bytes,
            )[a] == mem[a] by {
                assert(mem.contains_key(a));
                assert(in_seg(segs[segs.len() - 1], a as int));
            }
        }
    }
}

proof fn lemma_scattered_mapped(mem: Map<u64, u8>, segs: Seq<(u64, u64)>, all: Seq<(u64, u64)>, src: Seq<u8>)
    requires
        segs_mapped(mem, all),
    ensures
        segs_mapped(scattered(mem, segs, src), all),
    decreases segs.len(),
{
    if segs.len() > 0 {
        lemma_scattered_mapped(mem, segs.drop_last(), all, src);
        let m = scattered(mem, segs.drop_last(), src);
        assert forall|i: int| 0 <= i < all.len() implies range_mapped(
            scattered(mem, segs, src),
            (#[trigger] all[i]).0,
            all[i].1,
        ) by {
            assert(range_mapped(m, all[i].0, all[i].1));
            assert forall|a: u64| all[i].0 <= a < all[i].0 + all[i].1 implies #[trigger] scattered(
                mem,
                segs,
                src,
            ).contains_key(a) by {
                assert(m.contains_key(a));
            }
        }
    }
}

/// Dealing bytes out over mapped segments maps nothing new.
pub proof fn lemma_scattered_domain(mem: Map<u64, u8>, segs: Seq<(u64, u64)>, src: Seq<u8>)
    requires
        segs_mapped(mem, segs),
        total_len(segs) <= src.len(),
    ensures
        scattered(mem, segs, src).dom() == mem.dom(),
    decreases segs.len(),
{
    if segs.len() > 0 {
        let before = segs.drop_last();
        let last = segs.last();
        assert forall|i: int| 0 <= i < before.len() implies (#[trigger] before[i]) == segs[i] by {}
        lemma_scattered_domain(mem, before, src);
        assert(range_mapped(mem, segs[segs.len() - 1].0, segs[segs.len() - 1].1));
        assert forall|a: u64| #[trigger] scattered(mem, segs, src).dom().contains(
            a,
        ) implies mem.dom().contains(a) by {
            if last.0 <= a < last.0 + last.1 {
                assert(mem.contains_key(a));
            } else {
                assert(scattered(mem, before, src).contains_key(a));
            }
        }
        assert(scattered(mem, segs, src).dom() =~= mem.dom());
    }
}

/// What was dealt out over segments that do not overlap is what the segments
/// then hold.
pub proof fn law_gather_reads_what_scatter_wrote(
    mem: Map<u64, u8>,
    segs: Seq<(u64, u64)>,
    src: Seq<u8>,
)
    requires
        segs_mapped(mem, segs),
        segs_disjoint(segs),
        total_len(segs) <= src.len(),
    ensures
        gathered(scattered(mem, segs, src), segs) == src.take(total_len(segs) as int),
    decreases segs.len(),
{
    if segs.len() > 0 {
        let before = segs.drop_last();
        let last = segs.last();
        let off = total_len(before) as int;
        assert forall|i: int| 0 <= i < before.len() implies (#[trigger] before[i]) == segs[i] by {}
        assert(segs[segs.len() - 1] == last);
        assert forall|i: int, j: int, x: int|
            0 <= i < j < before.len() && #[trigger] in_seg(before[i], x) implies !#[trigger] in_seg(
            before[j],
            x,
        ) by {
            assert(in_seg(segs[i], x));
            assert(!in_seg(segs[j], x));
        }
        law_gather_reads_what_scatter_wrote(mem, before, src);
        lemma_scattered_mapped(mem, before, before, src);
        let m = scattered(mem, before, src);
        let part = src.subrange(off, off + last.1);
        assert forall|i: int, x: int|
            0 <= i < before.len() && #[trigger] in_seg(before[i], x) implies !(last.0 <= x < last.0
            + part.len()) by {
            assert(in_seg(segs[i], x));
            assert(!in_seg(segs[segs.len() - 1], x));
        }
        lemma_gathered_frame(m, before, last.0, part);
        assert(range_bytes(written(m, last.0, part), last.0, last.1) =~= part);
        assert(src.take(total_len(segs) as int) =~= src.take(off) + part);
    } else {
        assert(src.take(0) =~= Seq::empty());
    }
}

} // verus!
