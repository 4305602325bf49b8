//! NUMA-placed host pools. Allocation is first-fit over a free list; frees
//! coalesce. Good enough for large slots; a log-structured extent allocator
//! replaces this once eviction policy matters.
use vstd::prelude::*;

verus! {

/// 2 MiB: friendly to both DMA and THP.
pub const ALIGN: usize = 0x20_0000;

/// `bytes`, rounded up to the alignment.
pub open spec fn rounded(bytes: nat) -> nat {
    (bytes + ALIGN - 1) as nat / ALIGN as nat * ALIGN as nat
}

pub proof fn lemma_rounded(bytes: nat)
    ensures
        bytes <= rounded(bytes) < bytes + ALIGN,
        rounded(bytes) % ALIGN as nat == 0,
{
    let q = (bytes + ALIGN - 1) as nat / ALIGN as nat;
    assert(rounded(bytes) == q * ALIGN);
    assert(q * ALIGN % ALIGN as int == 0) by (nonlinear_arith);
}

/// Rounding up never reaches past a multiple of the alignment.
pub proof fn lemma_rounded_within(bytes: nat, limit: nat)
    requires
        bytes <= limit,
        limit % ALIGN as nat == 0,
    ensures
        rounded(bytes) <= limit,
{
    lemma_rounded(bytes);
    let q = (bytes + ALIGN - 1) as nat / ALIGN as nat;
    let k = limit / ALIGN as nat;
    assert(limit == k * ALIGN);
    assert(q <= k) by {
        if q > k {
            assert(q * ALIGN >= (k + 1) * ALIGN) by (nonlinear_arith)
                requires
                    q >= k + 1,
            ;
        }
    }
    assert(q * ALIGN <= k * ALIGN) by (nonlinear_arith)
        requires
            q <= k,
    ;
}

/// `bytes`, rounded up to the alignment.
fn round_up(bytes: usize) -> (r: usize)
    requires
        rounded(bytes as nat) <= usize::MAX,
    ensures
        r == rounded(bytes as nat),
{
    proof {
        lemma_rounded(bytes as nat);
    }
    let whole: usize = bytes / ALIGN;
    let q: usize = if bytes % ALIGN == 0 {
        whole
    } else {
        whole + 1
    };
    proof {
        let b = bytes as int;
        assert(q == (b + ALIGN - 1) / ALIGN as int);
        assert(q * ALIGN == rounded(bytes as nat));
    }
    q * ALIGN
}

/// The length of a pool made for `bytes`.
pub fn pool_len(bytes: usize) -> (r: Option<usize>)
    ensures
        rounded(bytes as nat) <= usize::MAX ==> r == Some(rounded(bytes as nat) as usize),
        rounded(bytes as nat) > usize::MAX ==> r is None,
{
    proof {
        lemma_rounded(bytes as nat);
        lemma_top();
    }
    if bytes > usize::MAX / ALIGN * ALIGN {
        proof {
            let top = (usize::MAX / ALIGN * ALIGN) as nat;
            if rounded(bytes as nat) <= usize::MAX {
                let q = (bytes + ALIGN - 1) as nat / ALIGN as nat;
                let k = (usize::MAX / ALIGN) as nat;
                assert(q <= k) by {
                    if q > k {
                        assert(q * ALIGN >= (k + 1) * ALIGN) by (nonlinear_arith)
                            requires
                                q >= k + 1,
                        ;
                    }
                }
                assert(q * ALIGN <= k * ALIGN) by (nonlinear_arith)
                    requires
                        q <= k,
                ;
            }
        }
        return None;
    }
    proof {
        let k = (usize::MAX / ALIGN) as nat;
        assert(k * ALIGN % ALIGN as int == 0) by (nonlinear_arith);
        lemma_rounded_within(bytes as nat, (k * ALIGN) as nat);
    }
    Some(round_up(bytes))
}

proof fn lemma_top()
    ensures
        (usize::MAX / ALIGN) * ALIGN <= usize::MAX,
        (usize::MAX / ALIGN + 1) * ALIGN > usize::MAX,
{
}

/// Whether the byte at `x` is free.
pub open spec fn is_free(free: Seq<(usize, usize)>, x: int) -> bool {
    exists|i: int| 0 <= i < free.len() && in_block(#[trigger] free[i], x)
}

pub open spec fn in_block(block: (usize, usize), x: int) -> bool {
    block.0 <= x < block.0 + block.1
}

/// Whether a free list is in order: blocks ascend, none is empty, none touches
/// the next, none leaves the pool.
pub open spec fn list_ok(free: Seq<(usize, usize)>, len: nat) -> bool {
    &&& forall|i: int|
        0 <= i < free.len() ==> (#[trigger] free[i]).1 > 0 && free[i].0 + free[i].1 <= len
    &&& forall|i: int, j: int|
        0 <= i < j < free.len() ==> (#[trigger] free[i]).0 + free[i].1 < (#[trigger] free[j]).0
}

/// Whether every block starts and ends at a multiple of the alignment.
pub open spec fn all_aligned(free: Seq<(usize, usize)>) -> bool {
    forall|i: int| 0 <= i < free.len() ==> block_aligned(#[trigger] free[i])
}

pub open spec fn block_aligned(block: (usize, usize)) -> bool {
    block.0 as int % ALIGN as int == 0 && block.1 as int % ALIGN as int == 0
}

/// The bytes in a free list.
pub open spec fn free_total(free: Seq<(usize, usize)>) -> nat
    decreases free.len(),
{
    if free.len() == 0 {
        0
    } else {
        free_total(free.drop_last()) + free.last().1 as nat
    }
}

proof fn lemma_total_within(free: Seq<(usize, usize)>, len: nat)
    requires
        list_ok(free, len),
    ensures
        free_total(free) <= len,
        free.len() > 0 ==> free_total(free) <= free.last().0 + free.last().1,
    decreases free.len(),
{
    if free.len() > 0 {
        let before = free.drop_last();
        assert forall|i: int| 0 <= i < before.len() implies #[trigger] before[i] == free[i] by {}
        lemma_total_within(before, len);
        assert(free[free.len() - 1] == free.last());
        if before.len() > 0 {
            assert(before.last() == free[free.len() - 2]);
        }
    }
}

proof fn lemma_total_take(free: Seq<(usize, usize)>, n: int)
    requires
        0 <= n <= free.len(),
    ensures
        free_total(free.take(n)) <= free_total(free),
    decreases free.len() - n,
{
    if n < free.len() {
        lemma_total_take(free, n + 1);
        assert(free.take(n + 1).drop_last() =~= free.take(n));
    } else {
        assert(free.take(n) =~= free);
    }
}

/// The first block that holds `need` bytes.
pub open spec fn first_fit(free: Seq<(usize, usize)>, need: nat, i: int) -> bool {
    &&& 0 <= i < free.len()
    &&& free[i].1 >= need
    &&& forall|j: int| 0 <= j < i ==> (#[trigger] free[j]).1 < need
}

/// The free list after `need` bytes were cut off the front of block `i`.
pub open spec fn cut(free: Seq<(usize, usize)>, i: int, need: nat) -> Seq<(usize, usize)> {
    if free[i].1 == need {
        free.remove(i)
    } else {
        free.update(i, ((free[i].0 + need) as usize, (free[i].1 - need) as usize))
    }
}

pub struct PinnedPool {
    numa: u16,
    base: u64,
    len: usize,
    free: Vec<(usize, usize)>,
}

#[verifier::ext_equal]
pub struct PinnedView {
    pub numa: u16,
    /// The address of the first byte.
    pub base: u64,
    pub len: nat,
    /// (offset, len), sorted by offset.
    pub free: Seq<(usize, usize)>,
}

impl View for PinnedPool {
    type V = PinnedView;

    closed spec fn view(&self) -> PinnedView {
        PinnedView { numa: self.numa, base: self.base, len: self.len as nat, free: self.free@ }
    }
}

/// An allocation inside a pool. Holding one keeps the bytes alive through
/// in-flight transfers even after eviction.
#[derive(Copy, Clone, Debug, PartialEq, Eq, Structural)]
pub struct PinnedBuf {
    pub numa: u16,
    pub addr: u64,
    pub off: usize,
    /// Reserved (aligned) length returned to the pool.
    pub reserved: usize,
    /// Requested length; what `len()` reports.
    pub len: usize,
}

impl PinnedBuf {
    /// The address of the first byte.
    pub fn as_ptr(&self) -> (r: u64)
        ensures
            r == self.addr,
    {
        self.addr
    }

    pub fn len(&self) -> (r: usize)
        ensures
            r == self.len,
    {
        self.len
    }

    pub fn is_empty(&self) -> (r: bool)
        ensures
            r == (self.len == 0),
    {
        self.len == 0
    }

    pub fn numa(&self) -> (r: u16)
        ensures
            r == self.numa,
    {
        self.numa
    }

    /// Whether the byte at `x` of the pool belongs to the allocation.
    pub open spec fn covers(self, x: int) -> bool {
        self.off <= x < self.off + self.reserved
    }
}

impl PinnedView {
    pub open spec fn ok(self) -> bool {
        &&& list_ok(self.free, self.len)
        &&& all_aligned(self.free)
        &&& self.len % ALIGN as nat == 0
        &&& self.len <= usize::MAX
        &&& self.base + self.len <= u64::MAX + 1
    }

    /// The allocation of `bytes` from block `i`.
    pub open spec fn buf(self, i: int, bytes: nat) -> PinnedBuf {
        PinnedBuf {
            numa: self.numa,
            addr: self.base.wrapping_add(self.free[i].0 as u64),
            off: self.free[i].0,
            reserved: rounded(bytes) as usize,
            len: bytes as usize,
        }
    }

    /// The pool and the allocation after `bytes` were asked for, where a block
    /// holds them: the first one gives them.
    pub open spec fn allocated(self, bytes: nat) -> Option<(PinnedView, PinnedBuf)> {
        if exists|i: int| first_fit(self.free, rounded(bytes), i) {
            let i = choose|i: int| first_fit(self.free, rounded(bytes), i);
            Some(
                (
                    PinnedView { free: cut(self.free, i, rounded(bytes)), ..self },
                    self.buf(i, bytes),
                ),
            )
        } else {
            None
        }
    }

    /// Whether `free` is this pool's free list with a range given back.
    pub open spec fn gives_back(self, off: nat, len: nat, free: Seq<(usize, usize)>) -> bool {
        &&& list_ok(free, self.len)
        &&& forall|x: int| #[trigger]
            is_free(free, x) <==> is_free(self.free, x) || off <= x < off + len
    }

    /// The pool after a range was given back: the free list in order that holds
    /// the range as well.
    pub open spec fn returned(self, off: nat, len: nat) -> PinnedView {
        PinnedView {
            free: choose|free: Seq<(usize, usize)>| self.gives_back(off, len, free),
            ..self
        }
    }

    /// Whether an allocation of this pool may be given back: it lies in the
    /// pool, starts and ends at a multiple of the alignment, and none of it is
    /// free.
    pub open spec fn returnable(self, off: nat, len: nat) -> bool {
        &&& off % ALIGN as nat == 0
        &&& len % ALIGN as nat == 0
        &&& off + len <= self.len
        &&& forall|x: int| off <= x < off + len ==> !#[trigger] is_free(self.free, x)
    }
}

/// First touch places pages on the node of the thread that writes them; this is
/// the size of a page.
pub const PAGE: usize = 4096;

/// `a` divided by `b`, rounded up.
pub open spec fn ceil_div(a: nat, b: nat) -> nat {
    if a % b == 0 {
        a / b
    } else {
        a / b + 1
    }
}

/// How many threads touch a pool, given the number of CPUs of its node.
pub open spec fn touch_threads(cpus: Option<usize>) -> nat {
    match cpus {
        Some(n) => if n < 1 {
            1
        } else if n > 32 {
            32
        } else {
            n as nat
        },
        None => 8,
    }
}

/// How many bytes each of them touches.
pub open spec fn touch_chunk(cpus: Option<usize>, len: nat) -> nat {
    ceil_div(ceil_div(len, touch_threads(cpus)), PAGE as nat) * PAGE as nat
}

/// Cut `len` bytes into one stretch per thread, each a whole number of pages but
/// for the last, for as many threads as the node has CPUs, 32 at most (8 where
/// its CPUs are unknown).
pub fn touch_ranges(cpus: Option<usize>, len: usize) -> (r: Vec<(usize, usize)>)
    requires
        len <= usize::MAX / 2 - PAGE,
    ensures
        r@.len() <= touch_threads(cpus),
        forall|i: int|
            0 <= i < r@.len() ==> (#[trigger] r@[i]).0 == i * touch_chunk(cpus, len as nat) && (
            r@[i].1 == if r@[i].0 + touch_chunk(cpus, len as nat) < len {
                r@[i].0 + touch_chunk(cpus, len as nat)
            } else {
                len as int
            }),
        len == 0 ==> r@.len() == 0,
        len > 0 ==> r@.len() > 0 && r@[0].0 == 0 && r@.last().1 == len,
        forall|i: int|
            0 <= i < r@.len() ==> (#[trigger] r@[i]).0 < r@[i].1 && r@[i].0 as int % PAGE as int == 0,
        forall|i: int|
            0 <= i < r@.len() - 1 ==> #[trigger] r@[i].1 == r@[i + 1].0,
{
    let threads: usize = match cpus {
        Some(n) => if n < 1 {
            1
        } else if n > 32 {
            32
        } else {
            n
        },
        None => 8,
    };
    let share: usize = if len % threads == 0 {
        len / threads
    } else {
        len / threads + 1
    };
    let pages: usize = if share % PAGE == 0 {
        share / PAGE
    } else {
        share / PAGE + 1
    };
    let ghost l = len as int;
    let ghost t = threads as int;
    proof {
        assert(share <= l) by {
            assert(l / t <= l) by (nonlinear_arith)
                requires
                    l >= 0,
                    t >= 1,
            ;
            if l % t != 0 {
                assert(t >= 2) by {
                    if t == 1 {
                        assert(l % 1 == 0);
                    }
                }
                assert(l / t <= l / 2) by (nonlinear_arith)
                    requires
                        l >= 0,
                        t >= 2,
                ;
                assert(l >= 1) by {
                    if l == 0 {
                        assert(0int % t == 0) by (nonlinear_arith)
                            requires
                                t >= 2,
                        ;
                    }
                }
            }
        }
        assert(share * t >= l) by {
            assert(l == (l / t) * t + l % t) by (nonlinear_arith)
                requires
                    t >= 1,
            ;
            assert(0 <= l % t < t);
            assert((l / t + 1) * t == (l / t) * t + t) by (nonlinear_arith);
        }
    }
    let chunk: usize = pages * PAGE;
    proof {
        assert(chunk >= share);
        assert(chunk * t >= l) by (nonlinear_arith)
            requires
                chunk >= share,
                share * t >= l,
                t >= 1,
        ;
    }
    assert(chunk == 0 ==> chunk * t == 0) by (nonlinear_arith);
    let ghost c = chunk as int;
    let mut out: Vec<(usize, usize)> = Vec::new();
    let mut start: usize = 0;
    let mut i: usize = 0;
    while i < threads && start < len
        invariant
            len <= usize::MAX / 2 - PAGE,
            c == chunk,
            c > 0 || len == 0,
            chunk <= len + PAGE,
            i <= threads,
            out@.len() == i,
            start == times(i as int, c),
            forall|j: int|
                0 <= j < out@.len() ==> is_stretch(#[trigger] out@[j], j, c, len as int),
            i > 0 ==> times(i - 1, c) < len,
        decreases threads - i,
    {
        let next: usize = start + chunk;
        let end: usize = if next < len {
            next
        } else {
            len
        };
        out.push((start, end));
        proof {
            lemma_times(i as int, c);
        }
        start = next;
        i = i + 1;
    }
    proof {
        let n = out@.len() as int;
        assert(start >= len) by {
            assert(times(t, c) == c * t) by (nonlinear_arith);
        }
        if len > 0 {
            assert(n > 0) by {
                assert(times(0, c) == 0) by (nonlinear_arith);
            }
            assert(is_stretch(out@[n - 1], n - 1, c, len as int));
            lemma_times(n - 1, c);
            assert(is_stretch(out@[0], 0, c, len as int));
            assert(times(0, c) == 0) by (nonlinear_arith);
        } else {
            assert(times(0, c) == 0) by (nonlinear_arith);
            if n > 0 {
                assert(is_stretch(out@[0], 0, c, len as int));
            }
        }
        assert forall|j: int| 0 <= j < n implies (#[trigger] out@[j]).0 == j * c && (out@[j].1
            == if out@[j].0 + c < len {
            out@[j].0 + c
        } else {
            len as int
        }) && out@[j].0 < out@[j].1
            && out@[j].0 as int % PAGE as int == 0 by {
            assert(is_stretch(out@[j], j, c, len as int));
            assert(j * (pages * PAGE) == (j * pages) * PAGE) by (nonlinear_arith);
            vstd::arithmetic::div_mod::lemma_mod_multiples_basic(j * pages, PAGE as int);
        }
        assert forall|j: int| 0 <= j < n - 1 implies #[trigger] out@[j].1 == out@[j + 1].0 by {
            assert(is_stretch(out@[j], j, c, len as int));
            assert(is_stretch(out@[j + 1], j + 1, c, len as int));
            lemma_times(j, c);
        }
    }
    out
}

spec fn times(i: int, c: int) -> int {
    i * c
}

proof fn lemma_times(i: int, c: int)
    ensures
        times(i + 1, c) == times(i, c) + c,
{
    assert((i + 1) * c == i * c + c) by (nonlinear_arith);
}

/// Whether a stretch is the `j`th of `c` bytes each, cut off at `len`.
spec fn is_stretch(r: (usize, usize), j: int, c: int, len: int) -> bool {
    &&& r.0 == times(j, c)
    &&& r.0 < len
    &&& r.0 < r.1
    &&& r.1 == if r.0 + c < len {
        r.0 + c
    } else {
        len
    }
}

impl PinnedPool {
    pub open spec fn wf(&self) -> bool {
        self@.ok()
    }

    /// A pool over memory that is mapped at `base`, all of it free.
    pub fn new(numa: u16, base: u64, bytes: usize) -> (r: Self)
        requires
            rounded(bytes as nat) <= usize::MAX,
            base + rounded(bytes as nat) <= u64::MAX + 1,
        ensures
            r.wf(),
            r@.numa == numa,
            r@.base == base,
            r@.len == rounded(bytes as nat),
            r@.free == if bytes == 0 {
                Seq::<(usize, usize)>::empty()
            } else {
                seq![(0usize, rounded(bytes as nat) as usize)]
            },
    {
        proof {
            lemma_rounded(bytes as nat);
        }
        let len = round_up(bytes);
        let mut free: Vec<(usize, usize)> = Vec::new();
        if len > 0 {
            free.push((0, len));
        }
        let pool = PinnedPool { numa, base, len, free };
        assert(pool@.free =~= if bytes == 0 {
            Seq::<(usize, usize)>::empty()
        } else {
            seq![(0usize, rounded(bytes as nat) as usize)]
        });
        pool
    }

    pub fn numa(&self) -> (r: u16)
        ensures
            r == self@.numa,
    {
        self.numa
    }

    pub fn capacity(&self) -> (r: usize)
        ensures
            r == self@.len,
    {
        self.len
    }

    pub fn free_bytes(&self) -> (r: usize)
        requires
            self.wf(),
        ensures
            r == free_total(self@.free),
    {
        let mut n: usize = 0;
        proof {
            lemma_total_within(self.free@, self@.len);
        }
        assert(self.free@.take(0) =~= Seq::empty());
        for i in 0..self.free.len()
            invariant
                free_total(self.free@) <= usize::MAX,
                n == free_total(self.free@.take(i as int)),
        {
            proof {
                lemma_total_take(self.free@, i + 1);
                assert(self.free@.take(i + 1).drop_last() =~= self.free@.take(i as int));
            }
            n = n + self.free[i].1;
        }
        assert(self.free@.take(self.free@.len() as int) =~= self.free@);
        n
    }

    /// Largest single allocation currently possible.
    pub fn largest_free(&self) -> (r: usize)
        ensures
            forall|i: int| 0 <= i < self@.free.len() ==> (#[trigger] self@.free[i]).1 <= r,
            self@.free.len() == 0 ==> r == 0,
            self@.free.len() > 0 ==> exists|i: int|
                0 <= i < self@.free.len() && (#[trigger] self@.free[i]).1 == r,
    {
        let mut best: usize = 0;
        for i in 0..self.free.len()
            invariant
                forall|j: int| 0 <= j < i ==> (#[trigger] self.free@[j]).1 <= best,
                i == 0 ==> best == 0,
                i > 0 ==> exists|j: int| 0 <= j < i && (#[trigger] self.free@[j]).1 == best,
        {
            if self.free[i].1 > best || i == 0 {
                best = self.free[i].1;
                assert(self.free@[i as int].1 == best);
            }
        }
        best
    }

    pub fn allocate(&mut self, bytes: usize) -> (r: Option<PinnedBuf>)
        requires
            old(self).wf(),
            rounded(bytes as nat) <= usize::MAX,
        ensures
            final(self).wf(),
            match old(self)@.allocated(bytes as nat) {
                Some((after, buf)) => r == Some(buf) && final(self)@ == after && buf.off as int
                    % ALIGN as int == 0 && buf.reserved as int % ALIGN as int == 0,
                None => r is None && final(self)@ == old(self)@,
            },
    {
        let need = round_up(bytes);
        let mut i: usize = 0;
        while i < self.free.len() && self.free[i].1 < need
            invariant
                i <= self.free@.len(),
                forall|j: int| 0 <= j < i ==> (#[trigger] self.free@[j]).1 < need,
            decreases self.free@.len() - i,
        {
            i = i + 1;
        }
        if i == self.free.len() {
            assert(forall|j: int| !first_fit(self@.free, rounded(bytes as nat), j));
            return None;
        }
        let (off, l) = self.free[i];
        let ghost before = self.free@;
        assert(first_fit(before, need as nat, i as int));
        proof {
            let c = choose|c: int| first_fit(before, need as nat, c);
            assert(c == i);
            lemma_cut(before, self@.len, i as int, need as nat);
            lemma_rounded(bytes as nat);
            lemma_cut_aligned(before, i as int, need as nat);
            assert(block_aligned(before[i as int]));
        }
        if l == need {
            self.free.remove(i);
        } else {
            self.free.set(i, (off + need, l - need));
        }
        assert(self.free@ =~= cut(before, i as int, need as nat));
        Some(
            PinnedBuf {
                numa: self.numa,
                addr: self.base.wrapping_add(off as u64),
                off,
                reserved: need,
                len: bytes,
            },
        )
    }

    /// Take back `len` bytes from `off` on.
    pub fn release(&mut self, off: usize, len: usize)
        requires
            old(self).wf(),
            old(self)@.returnable(off as nat, len as nat),
        ensures
            final(self).wf(),
            final(self)@ == old(self)@.returned(off as nat, len as nat),
            old(self)@.gives_back(off as nat, len as nat, final(self)@.free),
    {
        if len == 0 {
            assert(self@.gives_back(off as nat, 0, self@.free));
            proof {
                law_returned_list(self@, off as nat, 0, self@.free);
            }
            return;
        }
        let ghost f0 = self.free@;
        let mut i: usize = 0;
        while i < self.free.len() && self.free[i].0 < off
            invariant
                i <= self.free@.len(),
                forall|j: int| 0 <= j < i ==> (#[trigger] self.free@[j]).0 < off,
            decreases self.free@.len() - i,
        {
            i = i + 1;
        }
        proof {
            lemma_gap(self@, off as int, len as int, i as int);
        }
        // Coalesce with neighbours.
        let mut start: usize = off;
        let mut total: usize = len;
        let ghost mut a: int = i as int;
        let ghost mut b: int = i as int;
        if i < self.free.len() && off + len == self.free[i].0 {
            total = total + self.free[i].1;
            self.free.remove(i);
            proof {
                b = b + 1;
            }
        }
        let ghost f1 = self.free@;
        assert(f1 =~= f0.take(i as int) + f0.skip(b));
        if i > 0 && self.free[i - 1].0 + self.free[i - 1].1 == off {
            start = self.free[i - 1].0;
            total = total + self.free[i - 1].1;
            self.free.set(i - 1, (start, total));
            proof {
                a = a - 1;
            }
        } else {
            self.free.insert(i, (off, total));
        }
        assert(self.free@ =~= f0.take(a) + seq![(start, total)] + f0.skip(b));
        proof {
            lemma_filled(old(self)@, off as int, len as int, i as int, a, b, (start, total));
            assert(a < i ==> block_aligned(f0[a]));
            assert(b > i ==> block_aligned(f0[i as int]));
            lemma_splice_aligned(f0, a, b, (start, total));
            law_returned_list(old(self)@, off as nat, len as nat, self.free@);
        }
    }
}

/// A range that may be given back lies between the block before it and the one
/// after it.
proof fn lemma_gap(pool: PinnedView, off: int, len: int, i: int)
    requires
        pool.ok(),
        pool.returnable(off as nat, len as nat),
        off >= 0,
        len > 0,
        0 <= i <= pool.free.len(),
        forall|j: int| 0 <= j < i ==> (#[trigger] pool.free[j]).0 < off,
        i < pool.free.len() ==> pool.free[i].0 >= off,
    ensures
        i > 0 ==> pool.free[i - 1].0 + pool.free[i - 1].1 <= off,
        i < pool.free.len() ==> off + len <= pool.free[i].0,
{
    let free = pool.free;
    if i > 0 && free[i - 1].0 + free[i - 1].1 > off {
        assert(in_block(free[i - 1], off));
        assert(is_free(free, off));
    }
    if i < free.len() && off + len > free[i].0 {
        assert(in_block(free[i], free[i].0 as int));
        assert(is_free(free, free[i].0 as int));
    }
}

/// Filling the gap with a block that takes in the neighbours it touches gives
/// the range back.
proof fn lemma_filled(
    pool: PinnedView,
    off: int,
    len: int,
    i: int,
    a: int,
    b: int,
    block: (usize, usize),
)
    requires
        pool.ok(),
        0 <= off,
        len > 0,
        off + len <= pool.len,
        0 <= i <= pool.free.len(),
        i > 0 ==> pool.free[i - 1].0 + pool.free[i - 1].1 <= off,
        i < pool.free.len() ==> off + len <= pool.free[i].0,
        a == if i > 0 && pool.free[i - 1].0 + pool.free[i - 1].1 == off {
            i - 1
        } else {
            i
        },
        b == if i < pool.free.len() && off + len == pool.free[i].0 {
            i + 1
        } else {
            i
        },
        block.0 == if a < i {
            pool.free[a].0 as int
        } else {
            off
        },
        block.0 + block.1 == if b > i {
            pool.free[i].0 + pool.free[i].1
        } else {
            off + len
        },
    ensures
        pool.gives_back(
            off as nat,
            len as nat,
            pool.free.take(a) + seq![block] + pool.free.skip(b),
        ),
{
    let free = pool.free;
    assert forall|x: int| in_block(block, x) <==> (off <= x < off + len || exists|j: int|
        a <= j < b && in_block(#[trigger] free[j], x)) by {
        if in_block(block, x) && !(off <= x < off + len) {
            if x < off {
                assert(in_block(free[a], x));
            } else {
                assert(in_block(free[i], x));
            }
        }
        if exists|j: int| a <= j < b && in_block(#[trigger] free[j], x) {
            let j = choose|j: int| a <= j < b && in_block(#[trigger] free[j], x);
            assert(j == i - 1 || j == i);
        }
    }
    lemma_spliced(free, pool.len, a, b, block, off, off + len);
}

/// Blocks at multiples of the alignment, one of them in the place of some.
proof fn lemma_splice_aligned(free: Seq<(usize, usize)>, a: int, b: int, block: (usize, usize))
    requires
        all_aligned(free),
        0 <= a <= b <= free.len(),
        block_aligned(block),
    ensures
        all_aligned(free.take(a) + seq![block] + free.skip(b)),
{
    let now = free.take(a) + seq![block] + free.skip(b);
    assert forall|i: int| 0 <= i < now.len() implies block_aligned(#[trigger] now[i]) by {
        if i < a {
            assert(now[i] == free[i]);
        } else if i > a {
            assert(now[i] == free[b + (i - a - 1)]);
        }
    }
}

/// Cutting a multiple of the alignment leaves blocks at multiples of it.
pub proof fn lemma_cut_aligned(free: Seq<(usize, usize)>, i: int, need: nat)
    requires
        all_aligned(free),
        0 <= i < free.len(),
        free[i].1 >= need,
        free[i].0 + free[i].1 <= usize::MAX,
        need % ALIGN as nat == 0,
    ensures
        all_aligned(cut(free, i, need)),
{
    let now = cut(free, i, need);
    assert(block_aligned(free[i]));
    assert forall|j: int| 0 <= j < now.len() implies block_aligned(#[trigger] now[j]) by {
        if free[i].1 == need {
            assert(now[j] == free[if j < i { j } else { j + 1 }]);
        } else if j != i {
            assert(now[j] == free[j]);
        }
    }
}

/// Giving a range back keeps a pool in order.
pub proof fn lemma_returned(pool: PinnedView, off: nat, len: nat)
    requires
        pool.ok(),
        pool.returnable(off, len),
    ensures
        pool.returned(off, len).ok(),
        pool.gives_back(off, len, pool.returned(off, len).free),
{
    if len == 0 {
        assert(pool.gives_back(off, len, pool.free));
        law_returned_list(pool, off, len, pool.free);
    } else {
        let i = lemma_place(pool.free, off as int, 0);
        lemma_gap(pool, off as int, len as int, i);
        let a = if i > 0 && pool.free[i - 1].0 + pool.free[i - 1].1 == off {
            i - 1
        } else {
            i
        };
        let b = if i < pool.free.len() && off + len == pool.free[i].0 {
            i + 1
        } else {
            i
        };
        let start = if a < i {
            pool.free[a].0 as int
        } else {
            off as int
        };
        let end = if b > i {
            pool.free[i].0 + pool.free[i].1
        } else {
            (off + len) as int
        };
        let block = (start as usize, (end - start) as usize);
        lemma_filled(pool, off as int, len as int, i, a, b, block);
        assert(a < i ==> block_aligned(pool.free[a]));
        assert(b > i ==> block_aligned(pool.free[i]));
        lemma_splice_aligned(pool.free, a, b, block);
        law_returned_list(
            pool,
            off,
            len,
            pool.free.take(a) + seq![block] + pool.free.skip(b),
        );
    }
}

/// Where a block at `off` belongs.
proof fn lemma_place(free: Seq<(usize, usize)>, off: int, from: int) -> (i: int)
    requires
        0 <= from <= free.len(),
        forall|j: int| 0 <= j < from ==> (#[trigger] free[j]).0 < off,
    ensures
        from <= i <= free.len(),
        forall|j: int| 0 <= j < i ==> (#[trigger] free[j]).0 < off,
        i < free.len() ==> free[i].0 >= off,
    decreases free.len() - from,
{
    if from == free.len() || free[from].0 >= off {
        from
    } else {
        lemma_place(free, off, from + 1)
    }
}

/// Putting a block in the place of those that it touches keeps the list in
/// order and adds its bytes.
proof fn lemma_spliced(
    free: Seq<(usize, usize)>,
    len: nat,
    a: int,
    b: int,
    block: (usize, usize),
    from: int,
    to: int,
)
    requires
        list_ok(free, len),
        0 <= a <= b <= free.len(),
        block.1 > 0,
        block.0 + block.1 <= len,
        a > 0 ==> free[a - 1].0 + free[a - 1].1 < block.0,
        b < free.len() ==> block.0 + block.1 < free[b].0,
        forall|x: int|
            in_block(block, x) <==> (from <= x < to || exists|j: int|
                a <= j < b && in_block(#[trigger] free[j], x)),
    ensures
        list_ok(free.take(a) + seq![block] + free.skip(b), len),
        forall|x: int| #[trigger]
            is_free(free.take(a) + seq![block] + free.skip(b), x) <==> is_free(free, x) || from <= x
                < to,
{
    let after = free.take(a) + seq![block] + free.skip(b);
    assert forall|j: int| 0 <= j < after.len() implies #[trigger] after[j] == if j < a {
        free[j]
    } else if j == a {
        block
    } else {
        free[j - a - 1 + b]
    } by {}
    assert forall|j: int, k: int| 0 <= j < k < after.len() implies (#[trigger] after[j]).0
        + after[j].1 < (#[trigger] after[k]).0 by {
        if j < a && k == a && j < a - 1 {
            assert(free[j].0 + free[j].1 < free[a - 1].0);
        }
        if j == a && k > a + 1 {
            assert(free[b].0 < free[k - a - 1 + b].0);
        }
    }
    assert forall|x: int| #[trigger] is_free(after, x) <==> is_free(free, x) || from <= x < to by {
        if is_free(after, x) {
            let j = choose|j: int| 0 <= j < after.len() && in_block(#[trigger] after[j], x);
            if j < a {
                assert(in_block(free[j], x));
            } else if j > a {
                assert(in_block(free[j - a - 1 + b], x));
            } else if !(from <= x < to) {
                let k = choose|k: int| a <= k < b && in_block(#[trigger] free[k], x);
                assert(in_block(free[k], x));
            }
        }
        if is_free(free, x) {
            let j = choose|j: int| 0 <= j < free.len() && in_block(#[trigger] free[j], x);
            if j < a {
                assert(in_block(after[j], x));
            } else if j < b {
                assert(in_block(after[a], x));
            } else {
                assert(in_block(after[j - b + a + 1], x));
            }
        }
        if from <= x < to {
            assert(in_block(block, x));
            assert(in_block(after[a], x));
        }
    }
}

/// Cutting a block keeps the list in order and takes its first bytes.
proof fn lemma_cut(free: Seq<(usize, usize)>, len: nat, i: int, need: nat)
    requires
        list_ok(free, len),
        len <= usize::MAX,
        0 <= i < free.len(),
        need <= free[i].1,
    ensures
        list_ok(cut(free, i, need), len),
        forall|x: int| #[trigger]
            is_free(cut(free, i, need), x) <==> is_free(free, x) && !(free[i].0 <= x < free[i].0
                + need),
{
    let after = cut(free, i, need);
    if free[i].1 == need {
        assert forall|j: int| 0 <= j < after.len() implies #[trigger] after[j] == free[if j < i {
            j
        } else {
            j + 1
        }] by {}
    }
    assert forall|x: int| #[trigger] is_free(after, x) <==> is_free(free, x) && !(free[i].0 <= x
        < free[i].0 + need) by {
        if is_free(after, x) {
            let j = choose|j: int| 0 <= j < after.len() && in_block(#[trigger] after[j], x);
            let k = if free[i].1 == need && j >= i {
                j + 1
            } else {
                j
            };
            assert(in_block(free[k], x));
        }
        if is_free(free, x) && !(free[i].0 <= x < free[i].0 + need) {
            let j = choose|j: int| 0 <= j < free.len() && in_block(#[trigger] free[j], x);
            let k = if free[i].1 == need && j > i {
                j - 1
            } else {
                j
            };
            assert(in_block(after[k], x));
        }
    }
}

// ---- laws ----

/// A free list is fixed by which bytes are free: two that are in order and hold
/// the same bytes are the same list.
pub proof fn law_free_list_is_canonical(
    a: Seq<(usize, usize)>,
    b: Seq<(usize, usize)>,
    len: nat,
)
    requires
        list_ok(a, len),
        list_ok(b, len),
        forall|x: int| #[trigger] is_free(a, x) <==> is_free(b, x),
    ensures
        a == b,
    decreases a.len() + b.len(),
{
    if a.len() == 0 {
        if b.len() > 0 {
            assert(in_block(b[0], b[0].0 as int));
            assert(is_free(b, b[0].0 as int));
            assert(is_free(a, b[0].0 as int));
        }
        assert(a =~= b);
    } else if b.len() == 0 {
        assert(in_block(a[0], a[0].0 as int));
        assert(is_free(a, a[0].0 as int));
        assert(is_free(b, a[0].0 as int));
    } else {
        lemma_starts(a, b, len);
        lemma_starts(b, a, len);
        lemma_ends(a, b, len);
        lemma_ends(b, a, len);
        assert(a[0] == b[0]);
        let ta = a.drop_first();
        let tb = b.drop_first();
        assert(list_ok(ta, len) && list_ok(tb, len)) by {
            assert forall|i: int| 0 <= i < ta.len() implies #[trigger] ta[i] == a[i + 1] by {}
            assert forall|i: int| 0 <= i < tb.len() implies #[trigger] tb[i] == b[i + 1] by {}
        }
        lemma_tail(a, len);
        lemma_tail(b, len);
        assert forall|x: int| #[trigger] is_free(ta, x) <==> is_free(tb, x) by {
            assert(is_free(a, x) <==> is_free(b, x));
        }
        law_free_list_is_canonical(ta, tb, len);
        assert(a =~= seq![a[0]] + ta);
        assert(b =~= seq![b[0]] + tb);
    }
}

proof fn lemma_starts(a: Seq<(usize, usize)>, b: Seq<(usize, usize)>, len: nat)
    requires
        list_ok(a, len),
        list_ok(b, len),
        a.len() > 0,
        b.len() > 0,
        forall|x: int| #[trigger] is_free(a, x) <==> is_free(b, x),
    ensures
        b[0].0 <= a[0].0,
{
    let x = a[0].0 as int;
    assert(in_block(a[0], x));
    assert(is_free(a, x));
    assert(is_free(b, x));
    let j = choose|j: int| 0 <= j < b.len() && in_block(#[trigger] b[j], x);
    if j > 0 {
        assert(b[0].0 < b[j].0);
    }
}

proof fn lemma_ends(a: Seq<(usize, usize)>, b: Seq<(usize, usize)>, len: nat)
    requires
        list_ok(a, len),
        list_ok(b, len),
        a.len() > 0,
        b.len() > 0,
        a[0].0 == b[0].0,
        forall|x: int| #[trigger] is_free(a, x) <==> is_free(b, x),
    ensures
        b[0].1 <= a[0].1,
{
    if b[0].1 > a[0].1 {
        let x = a[0].0 + a[0].1;
        assert(in_block(b[0], x));
        assert(is_free(b, x));
        assert(is_free(a, x));
        let j = choose|j: int| 0 <= j < a.len() && in_block(#[trigger] a[j], x);
        if j > 0 {
            assert(a[0].0 + a[0].1 < a[j].0);
        }
    }
}

proof fn lemma_tail(a: Seq<(usize, usize)>, len: nat)
    requires
        list_ok(a, len),
        a.len() > 0,
    ensures
        forall|x: int| #[trigger]
            is_free(a.drop_first(), x) <==> is_free(a, x) && !in_block(a[0], x),
{
    let t = a.drop_first();
    assert forall|x: int| #[trigger] is_free(t, x) <==> is_free(a, x) && !in_block(a[0], x) by {
        if is_free(t, x) {
            let j = choose|j: int| 0 <= j < t.len() && in_block(#[trigger] t[j], x);
            assert(in_block(a[j + 1], x));
            assert(a[0].0 + a[0].1 < a[j + 1].0);
        }
        if is_free(a, x) && !in_block(a[0], x) {
            let j = choose|j: int| 0 <= j < a.len() && in_block(#[trigger] a[j], x);
            assert(in_block(t[j - 1], x));
        }
    }
}

/// An allocation was free, lies in the pool at a multiple of the alignment, holds
/// what was asked for, and is not free any more; nothing else changes hands.
pub proof fn law_alloc_takes_free_bytes(pool: PinnedView, i: int, bytes: nat)
    requires
        pool.ok(),
        rounded(bytes) <= usize::MAX,
        first_fit(pool.free, rounded(bytes), i),
    ensures
        ({
            let buf = pool.buf(i, bytes);
            let after = cut(pool.free, i, rounded(bytes));
            &&& bytes <= buf.reserved
            &&& buf.off + buf.reserved <= pool.len
            &&& buf.addr == pool.base + buf.off || buf.off == pool.len
            &&& buf.off as int % ALIGN as int == 0
            &&& buf.reserved as int % ALIGN as int == 0
            &&& list_ok(after, pool.len)
            &&& all_aligned(after)
            &&& forall|x: int| buf.covers(x) ==> #[trigger] is_free(pool.free, x)
            &&& forall|x: int| #[trigger]
                is_free(after, x) <==> is_free(pool.free, x) && !buf.covers(x)
        }),
{
    lemma_rounded(bytes);
    lemma_cut(pool.free, pool.len, i, rounded(bytes));
    lemma_cut_aligned(pool.free, i, rounded(bytes));
    assert(block_aligned(pool.free[i]));
    let buf = pool.buf(i, bytes);
    assert forall|x: int| buf.covers(x) implies #[trigger] is_free(pool.free, x) by {
        assert(in_block(pool.free[i], x));
    }
}

/// There is one free list with a range given back, whichever way it is made.
pub proof fn law_returned_list(
    pool: PinnedView,
    off: nat,
    len: nat,
    free: Seq<(usize, usize)>,
)
    requires
        pool.gives_back(off, len, free),
    ensures
        pool.returned(off, len).free == free,
{
    let c = choose|c: Seq<(usize, usize)>| pool.gives_back(off, len, c);
    assert forall|x: int| #[trigger] is_free(c, x) <==> is_free(free, x) by {
        assert(is_free(c, x) <==> is_free(pool.free, x) || off <= x < off + len);
        assert(is_free(free, x) <==> is_free(pool.free, x) || off <= x < off + len);
    }
    law_free_list_is_canonical(c, free, pool.len);
}

/// Giving an allocation back undoes it: the pool is as it was.
pub proof fn law_release_undoes_alloc(pool: PinnedView, bytes: nat)
    requires
        pool.ok(),
        rounded(bytes) <= usize::MAX,
        pool.allocated(bytes) is Some,
    ensures
        ({
            let (after, buf) = pool.allocated(bytes)->0;
            &&& after.returnable(buf.off as nat, buf.reserved as nat)
            &&& after.returned(buf.off as nat, buf.reserved as nat) == pool
        }),
{
    let (after, buf) = pool.allocated(bytes)->0;
    let i = choose|i: int| first_fit(pool.free, rounded(bytes), i);
    law_alloc_takes_free_bytes(pool, i, bytes);
    assert forall|x: int| #[trigger] is_free(pool.free, x) <==> is_free(after.free, x) || buf.off
        <= x < buf.off + buf.reserved by {
        assert(is_free(after.free, x) <==> is_free(pool.free, x) && !buf.covers(x));
        if buf.off <= x < buf.off + buf.reserved {
            assert(buf.covers(x));
            assert(is_free(pool.free, x));
        }
    }
    assert(after.gives_back(buf.off as nat, buf.reserved as nat, pool.free));
    law_returned_list(after, buf.off as nat, buf.reserved as nat, pool.free);
    assert forall|x: int|
        buf.off <= x < buf.off + buf.reserved implies !#[trigger] is_free(after.free, x) by {
        assert(buf.covers(x));
    }
}

// ---- any allocations and releases ----

proof fn lemma_total_add(a: Seq<(usize, usize)>, b: Seq<(usize, usize)>)
    ensures
        free_total(a + b) == free_total(a) + free_total(b),
    decreases b.len(),
{
    if b.len() == 0 {
        assert(a + b =~= a);
    } else {
        assert((a + b).drop_last() =~= a + b.drop_last());
        lemma_total_add(a, b.drop_last());
    }
}

proof fn lemma_total_one(block: (usize, usize))
    ensures
        free_total(seq![block]) == block.1,
{
    assert(seq![block].drop_last() =~= Seq::<(usize, usize)>::empty());
    assert(free_total(seq![block].drop_last()) == 0);
}

/// The bytes of a list with one block in the place of some.
proof fn lemma_total_splice(free: Seq<(usize, usize)>, a: int, b: int, block: (usize, usize))
    requires
        0 <= a <= b <= free.len(),
    ensures
        free_total(free.take(a) + seq![block] + free.skip(b)) + free_total(free.subrange(a, b))
            == free_total(free) + block.1,
{
    lemma_total_add(free.take(a) + seq![block], free.skip(b));
    lemma_total_add(free.take(a), seq![block]);
    lemma_total_one(block);
    lemma_total_add(free.take(a) + free.subrange(a, b), free.skip(b));
    lemma_total_add(free.take(a), free.subrange(a, b));
    assert(free.take(a) + free.subrange(a, b) + free.skip(b) =~= free);
}

proof fn lemma_cut_total(free: Seq<(usize, usize)>, i: int, need: nat)
    requires
        0 <= i < free.len(),
        free[i].1 >= need,
    ensures
        free_total(cut(free, i, need)) + need == free_total(free),
{
    let one = free.subrange(i, i + 1);
    assert(one =~= seq![free[i]]);
    lemma_total_one(free[i]);
    let left = (
        (free[i].0 + need) as usize,
        (free[i].1 - need) as usize,
    );
    lemma_total_splice(free, i, i + 1, left);
    if free[i].1 == need {
        lemma_total_add(free.take(i) + one, free.skip(i + 1));
        lemma_total_add(free.take(i), one);
        lemma_total_add(free.take(i), free.skip(i + 1));
        assert(free.take(i) + one + free.skip(i + 1) =~= free);
        assert(free.remove(i) =~= free.take(i) + free.skip(i + 1));
    } else {
        assert(free.update(i, left) =~= free.take(i) + seq![left] + free.skip(i + 1));
    }
}

proof fn lemma_returned_total(pool: PinnedView, off: nat, len: nat)
    requires
        pool.ok(),
        pool.returnable(off, len),
    ensures
        free_total(pool.returned(off, len).free) == free_total(pool.free) + len,
{
    let free = pool.free;
    if len == 0 {
        assert(pool.gives_back(off, len, free));
        law_returned_list(pool, off, len, free);
    } else {
        let i = lemma_place(free, off as int, 0);
        lemma_gap(pool, off as int, len as int, i);
        let a = if i > 0 && free[i - 1].0 + free[i - 1].1 == off {
            i - 1
        } else {
            i
        };
        let b = if i < free.len() && off + len == free[i].0 {
            i + 1
        } else {
            i
        };
        let start = if a < i {
            free[a].0 as int
        } else {
            off as int
        };
        let end = if b > i {
            free[i].0 + free[i].1
        } else {
            (off + len) as int
        };
        let block = (start as usize, (end - start) as usize);
        lemma_filled(pool, off as int, len as int, i, a, b, block);
        law_returned_list(pool, off, len, free.take(a) + seq![block] + free.skip(b));
        lemma_total_splice(free, a, b, block);
        let gone = free.subrange(a, b);
        let front = if a < i {
            seq![free[i - 1]]
        } else {
            Seq::empty()
        };
        let back = if b > i {
            seq![free[i]]
        } else {
            Seq::empty()
        };
        assert(gone =~= front + back);
        lemma_total_add(front, back);
        if a < i {
            lemma_total_one(free[i - 1]);
        }
        if b > i {
            lemma_total_one(free[i]);
        }
    }
}

/// A pool and what is allocated from it.
#[verifier::ext_equal]
pub struct PoolUse {
    pub pool: PinnedView,
    pub live: Seq<PinnedBuf>,
}

/// What a pool is asked for.
pub enum PoolStep {
    Allocate { bytes: nat },
    /// Give the allocation at a place back.
    Release { at: int },
}

/// The bytes that allocations take up.
pub open spec fn reserved_total(live: Seq<PinnedBuf>) -> nat
    decreases live.len(),
{
    if live.len() == 0 {
        0
    } else {
        reserved_total(live.drop_last()) + live.last().reserved as nat
    }
}

/// The pool after one step; what cannot be done changes nothing.
pub open spec fn stepped(u: PoolUse, step: PoolStep) -> PoolUse {
    match step {
        PoolStep::Allocate { bytes } => match u.pool.allocated(bytes) {
            Some((pool, buf)) => PoolUse { pool, live: u.live.push(buf) },
            None => u,
        },
        PoolStep::Release { at } => if 0 <= at < u.live.len() {
            PoolUse {
                pool: u.pool.returned(u.live[at].off as nat, u.live[at].reserved as nat),
                live: u.live.remove(at),
            }
        } else {
            u
        },
    }
}

/// The pool after a sequence of steps.
pub open spec fn stepped_all(u: PoolUse, steps: Seq<PoolStep>) -> PoolUse
    decreases steps.len(),
{
    if steps.len() == 0 {
        u
    } else {
        stepped(stepped_all(u, steps.drop_last()), steps.last())
    }
}

/// Whether no byte belongs to two allocations.
pub open spec fn live_apart(live: Seq<PinnedBuf>) -> bool {
    forall|i: int, j: int, x: int|
        0 <= i < j < live.len() && #[trigger] live[i].covers(x) ==> !#[trigger] live[j].covers(x)
}

/// Whether an allocation lies in a pool, and none of it is free.
pub open spec fn held_in(pool: PinnedView, buf: PinnedBuf) -> bool {
    &&& pool.returnable(buf.off as nat, buf.reserved as nat)
    &&& buf.reserved == rounded(buf.len as nat)
}

/// Whether a pool is in order with what is allocated from it: every allocation
/// lies in it, no two share a byte, and what is free and what is allocated add
/// up to its capacity.
pub open spec fn balanced(u: PoolUse) -> bool {
    &&& u.pool.ok()
    &&& forall|i: int| 0 <= i < u.live.len() ==> held_in(u.pool, #[trigger] u.live[i])
    &&& live_apart(u.live)
    &&& free_total(u.pool.free) + reserved_total(u.live) == u.pool.len
}

proof fn lemma_reserved_remove(live: Seq<PinnedBuf>, i: int)
    requires
        0 <= i < live.len(),
    ensures
        reserved_total(live.remove(i)) + live[i].reserved == reserved_total(live),
    decreases live.len(),
{
    if i == live.len() - 1 {
        assert(live.remove(i) =~= live.drop_last());
    } else {
        lemma_reserved_remove(live.drop_last(), i);
        assert(live.remove(i).drop_last() =~= live.drop_last().remove(i));
    }
}

proof fn lemma_allocated_balance(u: PoolUse, bytes: nat)
    requires
        balanced(u),
        u.pool.allocated(bytes) is Some,
    ensures
        balanced(stepped(u, PoolStep::Allocate { bytes })),
{
    let pool = u.pool;
    let t = stepped(u, PoolStep::Allocate { bytes });
    let i = choose|i: int| first_fit(pool.free, rounded(bytes), i);
    let buf = pool.buf(i, bytes);
    lemma_rounded(bytes);
    law_alloc_takes_free_bytes(pool, i, bytes);
    lemma_cut_total(pool.free, i, rounded(bytes));
    assert(t.live.drop_last() =~= u.live);
    assert forall|j: int| 0 <= j < t.live.len() implies held_in(t.pool, #[trigger] t.live[j]) by {
        if j < u.live.len() {
            let b = u.live[j];
            assert(held_in(pool, b));
            assert forall|x: int| b.off <= x < b.off + b.reserved implies !#[trigger] is_free(
                t.pool.free,
                x,
            ) by {
                assert(!is_free(pool.free, x));
            }
        } else {
            assert forall|x: int| buf.off <= x < buf.off + buf.reserved implies !#[trigger] is_free(
                t.pool.free,
                x,
            ) by {
                assert(buf.covers(x));
            }
        }
    }
    assert forall|a: int, b: int, x: int|
        0 <= a < b < t.live.len() && #[trigger] t.live[a].covers(x) implies !#[trigger] t.live[b].covers(
        x,
    ) by {
        assert(u.live[a].covers(x));
        assert(held_in(pool, u.live[a]));
        assert(!is_free(pool.free, x));
        if b < u.live.len() {
            assert(!u.live[b].covers(x));
        } else if buf.covers(x) {
            assert(is_free(pool.free, x));
        }
    }
}

proof fn lemma_released_balance(u: PoolUse, at: int)
    requires
        balanced(u),
        0 <= at < u.live.len(),
    ensures
        balanced(stepped(u, PoolStep::Release { at })),
{
    let buf = u.live[at];
    let t = stepped(u, PoolStep::Release { at });
    assert(held_in(u.pool, buf));
    lemma_returned(u.pool, buf.off as nat, buf.reserved as nat);
    lemma_returned_total(u.pool, buf.off as nat, buf.reserved as nat);
    lemma_reserved_remove(u.live, at);
    assert forall|j: int| 0 <= j < t.live.len() implies #[trigger] t.live[j] == u.live[if j < at {
        j
    } else {
        j + 1
    }] by {}
    assert forall|j: int| 0 <= j < t.live.len() implies held_in(t.pool, #[trigger] t.live[j]) by {
        let k = if j < at {
            j
        } else {
            j + 1
        };
        let b = u.live[k];
        assert(held_in(u.pool, b));
        assert forall|x: int| b.off <= x < b.off + b.reserved implies !#[trigger] is_free(
            t.pool.free,
            x,
        ) by {
            assert(b.covers(x));
            assert(u.live[k].covers(x));
            assert(!is_free(u.pool.free, x));
            if buf.covers(x) {
                assert(u.live[at].covers(x));
                if k < at {
                    assert(!u.live[at].covers(x));
                } else {
                    assert(!u.live[k].covers(x));
                }
            }
        }
    }
    assert forall|a: int, b: int, x: int|
        0 <= a < b < t.live.len() && #[trigger] t.live[a].covers(x) implies !#[trigger] t.live[b].covers(
        x,
    ) by {
        let c = if a < at {
            a
        } else {
            a + 1
        };
        let d = if b < at {
            b
        } else {
            b + 1
        };
        assert(u.live[c].covers(x));
        assert(!u.live[d].covers(x));
    }
}

/// Over any allocations and releases nothing is lost and nothing is handed out
/// twice: what is free and the rounded lengths of what is allocated add up to
/// the capacity, and no two allocations share a byte.
pub proof fn law_free_and_allocated_add_up(u: PoolUse, steps: Seq<PoolStep>)
    requires
        balanced(u),
    ensures
        balanced(stepped_all(u, steps)),
        stepped_all(u, steps).pool.len == u.pool.len,
    decreases steps.len(),
{
    if steps.len() > 0 {
        law_free_and_allocated_add_up(u, steps.drop_last());
        let p = stepped_all(u, steps.drop_last());
        match steps.last() {
            PoolStep::Allocate { bytes } => {
                if p.pool.allocated(bytes) is Some {
                    lemma_allocated_balance(p, bytes);
                }
            },
            PoolStep::Release { at } => {
                if 0 <= at < p.live.len() {
                    lemma_released_balance(p, at);
                }
            },
        }
    }
}

/// A pool that was just made is all free.
pub proof fn law_fresh_pool_is_all_free(pool: PinnedView, bytes: nat)
    requires
        pool.ok(),
        pool.len == rounded(bytes),
        pool.free == if bytes == 0 {
            Seq::<(usize, usize)>::empty()
        } else {
            seq![(0usize, rounded(bytes) as usize)]
        },
    ensures
        balanced(PoolUse { pool, live: Seq::empty() }),
{
    lemma_rounded(bytes);
    if bytes > 0 {
        lemma_total_one((0usize, rounded(bytes) as usize));
    } else {
        assert(rounded(0) == 0);
    }
}

/// Lengths are rounded up to the next multiple of the alignment, and no further.
pub proof fn law_lengths_are_rounded_up_to_the_next_multiple(bytes: nat, multiple: nat)
    requires
        multiple % ALIGN as nat == 0,
    ensures
        rounded(bytes) % ALIGN as nat == 0,
        bytes <= rounded(bytes),
        bytes <= multiple ==> rounded(bytes) <= multiple,
        ALIGN == 2 * 1024 * 1024,
{
    lemma_rounded(bytes);
    if bytes <= multiple {
        lemma_rounded_within(bytes, multiple);
    }
}

/// An allocation is the lowest that fits: it starts where free memory starts, and
/// no free stretch below it is long enough. One is refused exactly if no free
/// stretch is.
pub proof fn law_allocations_are_first_fit(pool: PinnedView, bytes: nat, off: nat)
    requires
        pool.ok(),
    ensures
        pool.allocated(bytes) is None <==> !exists|i: int|
            0 <= i < pool.free.len() && (#[trigger] pool.free[i]).1 >= rounded(bytes),
        pool.allocated(bytes) matches Some((after, buf)) ==> {
            &&& forall|x: int|
                buf.off <= x < buf.off + rounded(bytes) ==> #[trigger] is_free(pool.free, x)
            &&& rounded(bytes) > 0 && off < buf.off ==> exists|x: int|
                off <= x < off + rounded(bytes) && !#[trigger] is_free(pool.free, x)
            &&& buf.numa == pool.numa
            &&& buf.len == bytes
            &&& buf.reserved == rounded(bytes)
            &&& after.numa == pool.numa
            &&& after.base == pool.base
            &&& after.len == pool.len
            &&& forall|x: int| #[trigger]
                is_free(after.free, x) <==> is_free(pool.free, x) && !(buf.off <= x < buf.off
                    + rounded(bytes))
        },
{
    let need = rounded(bytes);
    lemma_rounded(bytes);
    if exists|i: int| 0 <= i < pool.free.len() && (#[trigger] pool.free[i]).1 >= need {
        let i = choose|i: int| 0 <= i < pool.free.len() && (#[trigger] pool.free[i]).1 >= need;
        let j = lemma_first(pool.free, need, i);
        assert(first_fit(pool.free, need, j));
    }
    if pool.allocated(bytes) is Some {
        let i = choose|i: int| first_fit(pool.free, need, i);
        assert(first_fit(pool.free, need, i));
        assert(pool.free[i].1 >= need);
        law_alloc_takes_free_bytes(pool, i, bytes);
        let (after, buf) = pool.allocated(bytes)->0;
        assert forall|x: int| buf.off <= x < buf.off + need implies #[trigger] is_free(
            pool.free,
            x,
        ) by {
            assert(buf.covers(x));
        }
        assert forall|x: int| #[trigger] is_free(after.free, x) <==> is_free(pool.free, x) && !(
        buf.off <= x < buf.off + need) by {
            assert(is_free(after.free, x) <==> is_free(pool.free, x) && !buf.covers(x));
        }
        if need > 0 && off < buf.off {
            lemma_below(pool, need, i, off);
        }
    }
}

/// The first block that is long enough comes no later than any that is.
proof fn lemma_first(free: Seq<(usize, usize)>, need: nat, i: int) -> (j: int)
    requires
        0 <= i < free.len(),
        free[i].1 >= need,
    ensures
        0 <= j <= i,
        first_fit(free, need, j),
    decreases i,
{
    if exists|k: int| 0 <= k < i && (#[trigger] free[k]).1 >= need {
        let k = choose|k: int| 0 <= k < i && (#[trigger] free[k]).1 >= need;
        lemma_first(free, need, k)
    } else {
        i
    }
}

/// Below the first block that is long enough, no stretch of that length is free.
proof fn lemma_below(pool: PinnedView, need: nat, i: int, off: nat)
    requires
        pool.ok(),
        first_fit(pool.free, need, i),
        need > 0,
        off < pool.free[i].0,
    ensures
        exists|x: int| off <= x < off + need && !#[trigger] is_free(pool.free, x),
{
    let free = pool.free;
    if is_free(free, off as int) {
        let k = choose|k: int| 0 <= k < free.len() && in_block(#[trigger] free[k], off as int);
        assert(k < i) by {
            if k >= i && k != i {
                assert(free[i].0 + free[i].1 < free[k].0);
            }
        }
        assert(free[k].1 < need);
        let end = free[k].0 + free[k].1;
        assert(!is_free(free, end)) by {
            if is_free(free, end) {
                let m = choose|m: int| 0 <= m < free.len() && in_block(#[trigger] free[m], end);
                if m < k {
                    assert(free[m].0 + free[m].1 < free[k].0);
                } else if m > k {
                    assert(free[k].0 + free[k].1 < free[m].0);
                }
            }
        }
        assert(off <= end < off + need);
    } else {
        assert(!is_free(free, off as int));
    }
}

proof fn lemma_ceil_div_holds(a: nat, b: nat)
    requires
        b > 0,
    ensures
        a <= ceil_div(a, b) * b < a + b,
{
    vstd::arithmetic::div_mod::lemma_fundamental_div_mod(a as int, b as int);
    let q = a as int / b as int;
    let r = a as int % b as int;
    assert(q * b == b * q) by (nonlinear_arith);
    assert((q + 1) * b == b * q + b) by (nonlinear_arith);
}

/// As many threads touch a pool as its node has CPUs, at least one and 32 at most,
/// and eight where the CPUs are not known. Each touches a whole number of pages,
/// all of them together touch the pool, and none touches a page more than its share
/// takes.
pub proof fn law_threads_share_a_pool(cpus: Option<usize>, len: nat)
    ensures
        1 <= touch_threads(cpus) <= 32,
        cpus matches Some(n) ==> (1 <= n <= 32 ==> touch_threads(cpus) == n),
        cpus matches Some(n) ==> (n > 32 ==> touch_threads(cpus) == 32),
        cpus is None ==> touch_threads(cpus) == 8,
        touch_chunk(cpus, len) as int % PAGE as int == 0,
        len <= touch_chunk(cpus, len) * touch_threads(cpus),
        (touch_chunk(cpus, len) - PAGE) * touch_threads(cpus) < len + touch_threads(cpus),
{
    let t = touch_threads(cpus);
    let share = ceil_div(len, t);
    let chunk = touch_chunk(cpus, len);
    let pages = ceil_div(share, PAGE as nat);
    lemma_ceil_div_holds(len, t);
    lemma_ceil_div_holds(share, PAGE as nat);
    vstd::arithmetic::div_mod::lemma_mod_multiples_basic(pages as int, PAGE as int);
    assert(share * t <= chunk * t) by (nonlinear_arith)
        requires
            share <= chunk,
            t >= 0,
    ;
    assert((chunk - PAGE) * t <= share * t) by (nonlinear_arith)
        requires
            chunk - PAGE < share,
            t >= 0,
    ;
}

} // verus!
