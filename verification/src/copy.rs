//! Copies between lists of segments, as plans: which bytes go where, in which
//! pieces, through which engine.
use vstd::prelude::*;

use crate::error;
use crate::error::{Error, ErrorKind, ErrorView};
use crate::region;
use crate::region::Iov;
use crate::text;
use crate::text::decimal_string;
use crate::types::Device;

verus! {

/// One contiguous run of addresses.
#[derive(Clone, Copy, Debug, PartialEq, Eq, Structural)]
pub struct Seg {
    pub addr: u64,
    pub len: u64,
}

pub open spec fn seg_pairs(segs: Seq<Seg>) -> Seq<(u64, u64)> {
    Seq::new(segs.len(), |i: int| (segs[i].addr, segs[i].len))
}

/// The segments of a list of addresses and lengths.
pub open spec fn pair_segs(pairs: Seq<(u64, u64)>) -> Seq<Seg> {
    Seq::new(pairs.len(), |i: int| Seg { addr: pairs[i].0, len: pairs[i].1 })
}

/// One piece of a copy.
#[derive(Clone, Copy, Debug, PartialEq, Eq, Structural)]
pub struct Piece {
    pub src: u64,
    pub dst: u64,
    pub len: u64,
}

/// Whether no segment reaches past the last address.
pub open spec fn addressable(segs: Seq<Seg>) -> bool {
    forall|i: int| 0 <= i < segs.len() ==> (#[trigger] segs[i]).addr + segs[i].len <= u64::MAX + 1
}

/// The bytes in a list of segments.
pub open spec fn segs_total(segs: Seq<Seg>) -> nat {
    region::total_len(seg_pairs(segs))
}

/// The address of byte `k` of a list of segments.
pub open spec fn byte_addr(segs: Seq<Seg>, k: int) -> int
    decreases segs.len(),
{
    if segs.len() == 0 {
        0
    } else {
        let before = segs_total(segs.drop_last());
        if k < before {
            byte_addr(segs.drop_last(), k)
        } else {
            segs.last().addr + (k - before)
        }
    }
}

/// The moves of a plan, byte by byte: from where, to where.
pub open spec fn moves(pieces: Seq<Piece>) -> Seq<(int, int)>
    decreases pieces.len(),
{
    if pieces.len() == 0 {
        Seq::empty()
    } else {
        let p = pieces.last();
        moves(pieces.drop_last()) + Seq::new(p.len as nat, |k: int| (p.src + k, p.dst + k))
    }
}

/// Byte `offset + k` of the source to byte `k` of the destination, for the first
/// `n` bytes.
pub open spec fn straight(src: Seq<Seg>, offset: int, dst: Seq<Seg>, n: nat) -> Seq<(int, int)> {
    Seq::new(n, |k: int| (byte_addr(src, offset + k), byte_addr(dst, k)))
}

/// How many of `total` bytes there is a source and a destination for.
pub open spec fn within_reach(src: Seq<Seg>, offset: u64, dst: Seq<Seg>, total: u64) -> nat {
    let left = if offset <= segs_total(src) {
        (segs_total(src) - offset) as nat
    } else {
        0
    };
    let room = segs_total(dst);
    if total <= left && total <= room {
        total as nat
    } else if left <= room {
        left
    } else {
        room
    }
}

proof fn lemma_take_step(segs: Seq<Seg>, i: int)
    requires
        0 <= i < segs.len(),
    ensures
        segs_total(segs.take(i + 1)) == segs_total(segs.take(i)) + segs[i].len,
{
    assert(segs.take(i + 1).drop_last() =~= segs.take(i));
    assert(seg_pairs(segs.take(i + 1)).drop_last() =~= seg_pairs(segs.take(i)));
}

proof fn lemma_take_le(segs: Seq<Seg>, i: int)
    requires
        0 <= i <= segs.len(),
    ensures
        segs_total(segs.take(i)) <= segs_total(segs),
    decreases segs.len() - i,
{
    if i < segs.len() {
        lemma_take_step(segs, i);
        lemma_take_le(segs, i + 1);
    } else {
        assert(segs.take(i) =~= segs);
    }
}

/// The bytes of segment `i` have consecutive addresses.
proof fn lemma_byte_addr(segs: Seq<Seg>, i: int, k: int)
    requires
        0 <= i < segs.len(),
        segs_total(segs.take(i)) <= k < segs_total(segs.take(i)) + segs[i].len,
    ensures
        byte_addr(segs, k) == segs[i].addr + (k - segs_total(segs.take(i))),
    decreases segs.len(),
{
    let before = segs.drop_last();
    if i == segs.len() - 1 {
        assert(segs.take(i) =~= before);
    } else {
        lemma_take_step(segs, i);
        lemma_take_le(before, i + 1);
        assert(before.take(i) =~= segs.take(i));
        assert(before.take(i + 1) =~= segs.take(i + 1));
        lemma_byte_addr(before, i, k);
    }
}

/// Walk two segment lists in lockstep, starting `src_offset` into `src`, and
/// plan the copy of `total` bytes. Where a list ends early, the plan covers
/// what came before, and the result is the refusal.
pub fn zip_copy(src: &[Seg], src_offset: u64, dst: &[Seg], total: u64) -> (r: (
    Vec<Piece>,
    Result<(), Error>,
))
    requires
        addressable(src@),
        addressable(dst@),
        segs_total(src@) <= u64::MAX,
        segs_total(dst@) <= u64::MAX,
    ensures
        moves(r.0@) == straight(
            src@,
            src_offset as int,
            dst@,
            within_reach(src@, src_offset, dst@, total),
        ),
        r.1 is Ok <==> within_reach(src@, src_offset, dst@, total) == total,
        r.1 matches Err(e) ==> e@ == ErrorView::new(
            ErrorKind::InvalidInput,
            "copy ran past a segment list"@,
        ),
{
    let mut plan: Vec<Piece> = Vec::new();
    let mut si: usize = 0;
    let mut s_off: u64 = src_offset;
    assert(src@.take(0) =~= Seq::empty());
    assert(dst@.take(0) =~= Seq::empty());
    while si < src.len() && s_off >= src[si].len
        invariant
            si <= src@.len(),
            s_off + segs_total(src@.take(si as int)) == src_offset,
        decreases src@.len() - si,
    {
        proof {
            lemma_take_step(src@, si as int);
        }
        s_off = s_off - src[si].len;
        si = si + 1;
    }
    let mut di: usize = 0;
    let mut d_off: u64 = 0;
    let mut left: u64 = total;
    proof {
        if si == src@.len() {
            assert(src@.take(si as int) =~= src@);
        } else {
            lemma_take_step(src@, si as int);
            lemma_take_le(src@, si + 1);
        }
    }
    assert(moves(plan@) =~= straight(src@, src_offset as int, dst@, 0));
    let ghost off = src_offset as int;
    while left > 0
        invariant
            off == src_offset,
            addressable(src@),
            addressable(dst@),
            segs_total(src@) <= u64::MAX,
            segs_total(dst@) <= u64::MAX,
            left <= total,
            si <= src@.len(),
            di <= dst@.len(),
            si < src@.len() ==> s_off < src@[si as int].len || s_off == 0,
            si < src@.len() ==> s_off + segs_total(src@.take(si as int)) == off + (total - left),
            si == src@.len() ==> off + (total - left) >= segs_total(src@),
            di < dst@.len() ==> d_off < dst@[di as int].len || d_off == 0,
            di < dst@.len() ==> d_off + segs_total(dst@.take(di as int)) == total - left,
            di == dst@.len() ==> total - left == segs_total(dst@),
            total - left <= segs_total(dst@),
            off <= segs_total(src@) || left == total,
            off <= segs_total(src@) ==> off + (total - left) <= segs_total(src@),
            moves(plan@) == straight(src@, off, dst@, (total - left) as nat),
        decreases left, (src@.len() - si) + (dst@.len() - di),
    {
        if si >= src.len() || di >= dst.len() {
            return (
                plan,
                Err(Error::new(ErrorKind::InvalidInput, "copy ran past a segment list")),
            );
        }
        let ghost done = (total - left) as int;
        let ghost s0 = segs_total(src@.take(si as int)) as int;
        let ghost d0 = segs_total(dst@.take(di as int)) as int;
        proof {
            lemma_take_step(src@, si as int);
            lemma_take_step(dst@, di as int);
            lemma_take_le(src@, si + 1);
            lemma_take_le(dst@, di + 1);
            if si + 1 == src@.len() {
                assert(src@.take(si + 1) =~= src@);
            }
            if di + 1 == dst@.len() {
                assert(dst@.take(di + 1) =~= dst@);
            }
        }
        let s_room: u64 = src[si].len - s_off;
        let d_room: u64 = dst[di].len - d_off;
        let mut n: u64 = if s_room < d_room {
            s_room
        } else {
            d_room
        };
        if left < n {
            n = left;
        }
        assert(src@[si as int].addr + src@[si as int].len <= u64::MAX + 1);
        assert(dst@[di as int].addr + dst@[di as int].len <= u64::MAX + 1);
        let piece = Piece { src: src[si].addr + s_off, dst: dst[di].addr + d_off, len: n };
        let ghost before = plan@;
        plan.push(piece);
        proof {
            assert(plan@.drop_last() =~= before);
            assert forall|k: int| 0 <= k < n implies byte_addr(src@, off + done + k) == piece.src + k
                && #[trigger] byte_addr(dst@, done + k) == piece.dst + k by {
                lemma_byte_addr(src@, si as int, off + done + k);
                lemma_byte_addr(dst@, di as int, done + k);
            }
            assert(moves(plan@) =~= straight(src@, off, dst@, (done + n) as nat)) by {
                let all = straight(src@, off, dst@, (done + n) as nat);
                assert forall|k: int| 0 <= k < done + n implies #[trigger] moves(plan@)[k]
                    == all[k] by {
                    if k >= done {
                        let m = k - done;
                        assert(byte_addr(dst@, done + m) == piece.dst + m);
                    } else {
                        assert(moves(before)[k] == straight(src@, off, dst@, done as nat)[k]);
                    }
                }
            }
        }
        s_off = s_off + n;
        d_off = d_off + n;
        left = left - n;
        if s_off == src[si].len {
            si = si + 1;
            s_off = 0;
        }
        if d_off == dst[di].len {
            di = di + 1;
            d_off = 0;
        }
    }
    (plan, Ok(()))
}

/// The segments of a gather/scatter list.
pub fn iov_segs(iovs: &[Iov<'_>]) -> (r: Vec<Seg>)
    ensures
        seg_pairs(r@) == region::segments(region::iov_views(iovs@)),
        r@ == pair_segs(region::segments(region::iov_views(iovs@))),
{
    let mut out: Vec<Seg> = Vec::new();
    let ghost want = region::segments(region::iov_views(iovs@));
    for i in 0..iovs.len()
        invariant
            want == region::segments(region::iov_views(iovs@)),
            seg_pairs(out@) == want.take(i as int),
    {
        let ghost before = seg_pairs(out@);
        assert(region::iov_views(iovs@)[i as int] == iovs@[i as int]@);
        out.push(Seg { addr: iovs[i].as_ptr(), len: iovs[i].len });
        assert(seg_pairs(out@) =~= before.push(want[i as int]));
        assert(seg_pairs(out@) =~= want.take(i + 1));
    }
    assert(seg_pairs(out@) =~= want);
    assert(out@ =~= pair_segs(want)) by {
        assert forall|i: int| 0 <= i < out@.len() implies #[trigger] out@[i] == pair_segs(want)[i] by {
            assert(seg_pairs(out@)[i] == want[i]);
        }
    }
    out
}

/// What moves bytes from one device to another.
#[derive(Copy, Clone, Debug, PartialEq, Eq, Structural)]
pub enum Engine {
    /// A memory copy on the host.
    Host,
    /// Host to device, on the stream of `gpu`.
    HostToDevice { gpu: u16 },
    /// Device to host, on the stream of `gpu`.
    DeviceToHost { gpu: u16 },
    /// Between two devices, on the stream of `to`.
    Peer { from: u16, to: u16 },
}

pub open spec fn gpu_not_served(gpu: u16) -> ErrorView {
    ErrorView::new(ErrorKind::InvalidInput, "gpu not served"@).with_context(
        "gpu"@,
        text::decimal(gpu as nat),
    )
}

/// The engine between two devices, or the refusal of a GPU that is not served;
/// the source's where neither is.
pub open spec fn engine_for(gpus: Seq<u16>, src: Device, dst: Device) -> Result<Engine, ErrorView> {
    match (src, dst) {
        (Device::Cpu { .. }, Device::Cpu { .. }) => Ok(Engine::Host),
        (Device::Cpu { .. }, Device::Gpu { index }) => if gpus.contains(index) {
            Ok(Engine::HostToDevice { gpu: index })
        } else {
            Err(gpu_not_served(index))
        },
        (Device::Gpu { index }, Device::Cpu { .. }) => if gpus.contains(index) {
            Ok(Engine::DeviceToHost { gpu: index })
        } else {
            Err(gpu_not_served(index))
        },
        (Device::Gpu { index: from }, Device::Gpu { index: to }) => if !gpus.contains(from) {
            Err(gpu_not_served(from))
        } else if !gpus.contains(to) {
            Err(gpu_not_served(to))
        } else {
            Ok(Engine::Peer { from, to })
        },
    }
}

/// Whether a GPU is served.
pub fn check_gpu(gpus: &Vec<u16>, gpu: u16) -> (r: Result<(), Error>)
    ensures
        error::result_view(r) == if gpus@.contains(gpu) {
            Ok::<(), ErrorView>(())
        } else {
            Err::<(), ErrorView>(gpu_not_served(gpu))
        },
{
    for i in 0..gpus.len()
        invariant
            forall|j: int| 0 <= j < i ==> gpus@[j] != gpu,
    {
        if gpus[i] == gpu {
            assert(gpus@[i as int] == gpu);
            return Ok(());
        }
    }
    Err(
        Error::new(ErrorKind::InvalidInput, "gpu not served").with_context(
            "gpu",
            decimal_string(gpu as u64),
        ),
    )
}

/// The engine between two devices.
pub fn pick_engine(gpus: &Vec<u16>, src: Device, dst: Device) -> (r: Result<Engine, Error>)
    ensures
        error::result_view(r) == engine_for(gpus@, src, dst),
{
    match (src, dst) {
        (Device::Cpu { .. }, Device::Cpu { .. }) => Ok(Engine::Host),
        (Device::Cpu { .. }, Device::Gpu { index }) => match check_gpu(gpus, index) {
            Ok(_) => Ok(Engine::HostToDevice { gpu: index }),
            Err(e) => Err(e),
        },
        (Device::Gpu { index }, Device::Cpu { .. }) => match check_gpu(gpus, index) {
            Ok(_) => Ok(Engine::DeviceToHost { gpu: index }),
            Err(e) => Err(e),
        },
        (Device::Gpu { index: from }, Device::Gpu { index: to }) => match check_gpu(gpus, from) {
            Ok(_) => match check_gpu(gpus, to) {
                Ok(_) => Ok(Engine::Peer { from, to }),
                Err(e) => Err(e),
            },
            Err(e) => Err(e),
        },
    }
}

// ---- what a plan does to memory ----

/// Memory after a list of moves, one byte after the other.
pub open spec fn moved(mem: Map<u64, u8>, steps: Seq<(int, int)>) -> Map<u64, u8>
    decreases steps.len(),
{
    if steps.len() == 0 {
        mem
    } else {
        let m = moved(mem, steps.drop_last());
        m.insert(steps.last().1 as u64, m[steps.last().0 as u64])
    }
}

proof fn lemma_moved(mem: Map<u64, u8>, steps: Seq<(int, int)>, k: int)
    requires
        forall|i: int| 0 <= i < steps.len() ==> 0 <= (#[trigger] steps[i]).0 <= u64::MAX,
        forall|i: int| 0 <= i < steps.len() ==> 0 <= (#[trigger] steps[i]).1 <= u64::MAX,
        forall|i: int, j: int|
            0 <= i < steps.len() && 0 <= j < steps.len() ==> (#[trigger] steps[i]).1 != (
            #[trigger] steps[j]).0,
        forall|i: int, j: int|
            0 <= i < j < steps.len() ==> (#[trigger] steps[i]).1 != (#[trigger] steps[j]).1,
        0 <= k < steps.len(),
    ensures
        moved(mem, steps)[steps[k].1 as u64] == mem[steps[k].0 as u64],
    decreases steps.len(),
{
    let before = steps.drop_last();
    assert forall|i: int| 0 <= i < before.len() implies #[trigger] before[i] == steps[i] by {}
    let last = steps.last();
    assert(last == steps[steps.len() - 1]);
    lemma_untouched(mem, before, last.0 as u64);
    if k < before.len() {
        lemma_moved(mem, before, k);
    }
}

proof fn lemma_untouched(mem: Map<u64, u8>, steps: Seq<(int, int)>, a: u64)
    requires
        forall|i: int| 0 <= i < steps.len() ==> 0 <= (#[trigger] steps[i]).1 <= u64::MAX,
        forall|i: int| 0 <= i < steps.len() ==> (#[trigger] steps[i]).1 != a,
    ensures
        moved(mem, steps)[a] == mem[a],
    decreases steps.len(),
{
    if steps.len() > 0 {
        let before = steps.drop_last();
        assert forall|i: int| 0 <= i < before.len() implies #[trigger] before[i] == steps[i] by {}
        assert(steps[steps.len() - 1].1 != a);
        lemma_untouched(mem, before, a);
    }
}

/// Byte `k` of what segments hold lies at the address of their byte `k`.
proof fn lemma_gathered_at(mem: Map<u64, u8>, segs: Seq<Seg>, k: int)
    requires
        addressable(segs),
        0 <= k < segs_total(segs),
    ensures
        0 <= byte_addr(segs, k) <= u64::MAX,
        region::gathered(mem, seg_pairs(segs))[k] == mem[byte_addr(segs, k) as u64],
    decreases segs.len(),
{
    let before = segs.drop_last();
    assert(seg_pairs(segs).drop_last() =~= seg_pairs(before));
    assert forall|i: int| 0 <= i < before.len() implies #[trigger] before[i] == segs[i] by {}
    region::lemma_gathered_len(mem, seg_pairs(before));
    assert(segs[segs.len() - 1] == segs.last());
    if k < segs_total(before) {
        lemma_gathered_at(mem, before, k);
    }
}

/// A plan that covers all of a copy does the copy: where no destination byte is
/// a byte that is read or another destination byte, the destination then holds the
/// range of the source that was asked for.
pub proof fn law_plan_copies_the_range(
    mem: Map<u64, u8>,
    src: Seq<Seg>,
    offset: int,
    dst: Seq<Seg>,
)
    requires
        addressable(src),
        addressable(dst),
        0 <= offset,
        offset + segs_total(dst) <= segs_total(src),
        forall|j: int, k: int|
            offset <= j < offset + segs_total(dst) && 0 <= k < segs_total(dst)
                ==> #[trigger] byte_addr(src, j) != #[trigger] byte_addr(dst, k),
        forall|j: int, k: int|
            0 <= j < k < segs_total(dst) ==> #[trigger] byte_addr(dst, j) != #[trigger] byte_addr(
                dst,
                k,
            ),
    ensures
        region::gathered(
            moved(mem, straight(src, offset, dst, segs_total(dst))),
            seg_pairs(dst),
        ) == region::gathered(mem, seg_pairs(src)).subrange(offset, offset + segs_total(dst)),
{
    let n = segs_total(dst);
    let steps = straight(src, offset, dst, n);
    let after = moved(mem, steps);
    region::lemma_gathered_len(mem, seg_pairs(src));
    region::lemma_gathered_len(after, seg_pairs(dst));
    assert forall|k: int| 0 <= k < n implies 0 <= (#[trigger] steps[k]).0 <= u64::MAX && 0
        <= steps[k].1 <= u64::MAX by {
        lemma_gathered_at(mem, src, offset + k);
        lemma_gathered_at(mem, dst, k);
    }
    assert forall|k: int| 0 <= k < n implies (#[trigger] region::gathered(after, seg_pairs(dst))[k])
        == region::gathered(mem, seg_pairs(src)).subrange(offset, offset + n)[k] by {
        lemma_moved(mem, steps, k);
        lemma_gathered_at(after, dst, k);
        lemma_gathered_at(mem, src, offset + k);
        assert(steps[k] == (byte_addr(src, offset + k), byte_addr(dst, k)));
    }
    assert(region::gathered(after, seg_pairs(dst)) =~= region::gathered(mem, seg_pairs(src)).subrange(
        offset,
        offset + n,
    ));
}

/// A piece moves its bytes from its source to its destination, from the first to
/// the last, and pieces are moved one after the other.
pub proof fn law_pieces_move_from_source_to_destination(pieces: Seq<Piece>, p: Piece, k: int)
    requires
        0 <= k < p.len,
    ensures
        moves(pieces.push(p)).len() == moves(pieces).len() + p.len,
        moves(pieces.push(p)).take(moves(pieces).len() as int) == moves(pieces),
        moves(pieces.push(p))[moves(pieces).len() + k] == (p.src + k, p.dst + k),
        moves(Seq::<Piece>::empty()).len() == 0,
{
    assert(pieces.push(p).drop_last() =~= pieces);
    assert(moves(pieces.push(p)).take(moves(pieces).len() as int) =~= moves(pieces));
}

/// Byte `k` of a list lies in the segment that it falls into: the bytes of the
/// first segments come first, and each segment from its address on.
pub proof fn law_bytes_lie_in_their_segment(segs: Seq<Seg>, i: int, x: int)
    requires
        0 <= i < segs.len(),
        0 <= x < segs[i].len,
    ensures
        byte_addr(segs, segs_total(segs.take(i)) + x) == segs[i].addr + x,
    decreases segs.len(),
{
    let before = segs.drop_last();
    if i < before.len() {
        law_bytes_lie_in_their_segment(before, i, x);
        assert(before.take(i) =~= segs.take(i));
        lemma_take_step(before, i);
        lemma_take_le(before, i + 1);
    } else {
        assert(segs.take(i) =~= before);
    }
}

/// A copy goes through the engine between its devices: the host between two of
/// its memories, a GPU's own towards or away from the host, and from one GPU to
/// the other between two; it is refused exactly if one of its GPUs is not served.
pub proof fn law_engines_go_between_their_devices(gpus: Seq<u16>, a: u16, b: u16)
    ensures
        engine_for(gpus, Device::Cpu { numa: a }, Device::Cpu { numa: b }) == Ok::<
            Engine,
            ErrorView,
        >(Engine::Host),
        gpus.contains(a) <==> engine_for(gpus, Device::Gpu { index: a }, Device::Cpu { numa: b })
            == Ok::<Engine, ErrorView>(Engine::DeviceToHost { gpu: a }),
        gpus.contains(b) <==> engine_for(gpus, Device::Cpu { numa: a }, Device::Gpu { index: b })
            == Ok::<Engine, ErrorView>(Engine::HostToDevice { gpu: b }),
        gpus.contains(a) && gpus.contains(b) <==> engine_for(
            gpus,
            Device::Gpu { index: a },
            Device::Gpu { index: b },
        ) == Ok::<Engine, ErrorView>(Engine::Peer { from: a, to: b }),
        !gpus.contains(a) ==> (engine_for(gpus, Device::Gpu { index: a }, Device::Cpu { numa: b })
            matches Err(e) && e.kind == ErrorKind::InvalidInput),
        !gpus.contains(b) ==> (engine_for(gpus, Device::Cpu { numa: a }, Device::Gpu { index: b })
            matches Err(e) && e.kind == ErrorKind::InvalidInput),
        !gpus.contains(a) || !gpus.contains(b) ==> (engine_for(
            gpus,
            Device::Gpu { index: a },
            Device::Gpu { index: b },
        ) matches Err(e) && e.kind == ErrorKind::InvalidInput),
{
}

} // verus!
