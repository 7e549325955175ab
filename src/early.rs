//! The early dual-end allocator.
//!
//! One contiguous region `[start, end)` serves two arenas that grow toward
//! each other: byte allocations bump `byte_pos` forward from `start`, page
//! allocations bump `page_pos` backward from `end`.  The free space is always
//! exactly `[byte_pos, page_pos)`.
//!
//! ```text
//! [ bytes-used | avail-area | pages-used ]
//! |            | -->    <-- |            |
//! start     byte_pos    page_pos        end
//! ```
//!
//! Byte allocations are only counted: when the count drops back to zero the
//! whole byte arena is reclaimed at once.  Page allocations are never freed.
use crate::align::{align_down, align_up, is_pow2, lemma_shift_is_pow2, round_down, round_up};
use vstd::arithmetic::power2::pow2;
use vstd::prelude::*;

verus! {

/// Why an allocator operation did not succeed.
#[derive(Debug, Clone, Copy, PartialEq, Eq, Structural)]
pub enum AllocError {
    /// The free gap between the two arenas cannot hold the request.
    NoMemory,
    /// The operation is outside what a single-region early allocator offers.
    Unsupported,
}

/// A dual-end bump allocator over one region, with pages of `PAGE_SIZE` bytes.
pub struct EarlyAllocator<const PAGE_SIZE: usize> {
    start: usize,
    end: usize,
    byte_pos: usize,
    page_pos: usize,
    count: usize,
}

impl<const PAGE_SIZE: usize> EarlyAllocator<PAGE_SIZE> {
    /// Lower bound of the managed region.
    pub closed spec fn start(&self) -> int {
        self.start as int
    }

    /// Upper bound (exclusive) of the managed region.
    pub closed spec fn end(&self) -> int {
        self.end as int
    }

    /// First free address of the byte arena.
    pub closed spec fn byte_pos(&self) -> int {
        self.byte_pos as int
    }

    /// Lowest address taken by the page arena.
    pub closed spec fn page_pos(&self) -> int {
        self.page_pos as int
    }

    /// Number of byte allocations not yet freed.
    pub closed spec fn live_count(&self) -> int {
        self.count as int
    }

    /// The cursors are ordered within the region, and an empty byte arena
    /// has its cursor at the start.
    pub open spec fn wf(&self) -> bool {
        &&& PAGE_SIZE > 0
        &&& self.start() <= self.byte_pos() <= self.page_pos() <= self.end() <= usize::MAX
        &&& 0 <= self.start()
        &&& 0 <= self.live_count() <= usize::MAX
        &&& self.live_count() == 0 ==> self.byte_pos() == self.start()
    }

    pub open spec fn spec_total_bytes(&self) -> int {
        self.end() - self.start()
    }

    pub open spec fn spec_used_bytes(&self) -> int {
        (self.byte_pos() - self.start()) + (self.end() - self.page_pos())
    }

    pub open spec fn spec_available_bytes(&self) -> int {
        self.page_pos() - self.byte_pos()
    }

    pub open spec fn spec_total_pages(&self) -> int {
        (self.end() - self.start()) / (PAGE_SIZE as int)
    }

    pub open spec fn spec_used_pages(&self) -> int {
        (self.end() - self.page_pos()) / (PAGE_SIZE as int)
    }

    pub open spec fn spec_available_pages(&self) -> int {
        (self.page_pos() - self.byte_pos()) / (PAGE_SIZE as int)
    }

    /// Both states manage the same region.
    pub open spec fn same_region(&self, other: &Self) -> bool {
        self.start() == other.start() && self.end() == other.end()
    }

    /// Where a byte allocation of `size` bytes aligned to `align` would start.
    pub open spec fn byte_target(&self, align: int) -> int {
        round_up(self.byte_pos(), align)
    }

    /// A byte allocation of `size` bytes aligned to `align` fits in the free gap.
    pub open spec fn bytes_fit(&self, size: int, align: int) -> bool {
        self.byte_target(align) + size <= self.page_pos()
    }

    /// `next` and `r` are the outcome of a byte allocation on `self`.
    pub open spec fn alloc_step(
        &self,
        size: int,
        align: int,
        r: Result<usize, AllocError>,
        next: &Self,
    ) -> bool {
        &&& self.same_region(next)
        &&& next.page_pos() == self.page_pos()
        &&& match r {
            Ok(addr) => {
                &&& self.bytes_fit(size, align)
                &&& addr == self.byte_target(align)
                &&& next.byte_pos() == addr + size
                &&& next.live_count() == self.live_count() + 1
            },
            Err(e) => {
                &&& !self.bytes_fit(size, align)
                &&& e == AllocError::NoMemory
                &&& next.byte_pos() == self.byte_pos()
                &&& next.live_count() == self.live_count()
            },
        }
    }

    /// `next` is the outcome of freeing one byte allocation on `self`.
    pub open spec fn dealloc_step(&self, next: &Self) -> bool {
        &&& self.same_region(next)
        &&& next.page_pos() == self.page_pos()
        &&& next.live_count() == self.live_count() - 1
        &&& next.byte_pos() == if next.live_count() == 0 {
            self.start()
        } else {
            self.byte_pos()
        }
    }

    /// Where a page allocation of `num_pages` pages aligned to `2^align_pow2`
    /// would start (below zero where the pages exceed `page_pos`).
    pub open spec fn page_target(&self, num_pages: int, align_pow2: nat) -> int {
        round_down(self.page_pos() - num_pages * PAGE_SIZE, pow2(align_pow2) as int)
    }

    /// A page allocation fits: its rounded-down start is not below `byte_pos`.
    pub open spec fn pages_fit(&self, num_pages: int, align_pow2: nat) -> bool {
        self.page_target(num_pages, align_pow2) >= self.byte_pos()
    }

    /// `next` and `r` are the outcome of a page allocation on `self`.
    pub open spec fn alloc_pages_step(
        &self,
        num_pages: int,
        align_pow2: nat,
        r: Result<usize, AllocError>,
        next: &Self,
    ) -> bool {
        &&& self.same_region(next)
        &&& next.byte_pos() == self.byte_pos()
        &&& next.live_count() == self.live_count()
        &&& match r {
            Ok(addr) => {
                &&& self.pages_fit(num_pages, align_pow2)
                &&& addr == self.page_target(num_pages, align_pow2)
                &&& next.page_pos() == addr
            },
            Err(e) => {
                &&& !self.pages_fit(num_pages, align_pow2)
                &&& e == AllocError::NoMemory
                &&& next.page_pos() == self.page_pos()
            },
        }
    }

    /// `next` is the outcome of a successful allocation of either kind on
    /// `self`, which handed out `[addr, addr + len)`.
    pub open spec fn allocates(&self, next: &Self, addr: usize, len: int) -> bool {
        ||| exists|size: usize, align: usize|
            #![trigger self.alloc_step(size as int, align as int, Ok::<usize, AllocError>(addr), next)]
            is_pow2(align) && len == size && self.alloc_step(
                size as int,
                align as int,
                Ok::<usize, AllocError>(addr),
                next,
            )
        ||| exists|num_pages: usize, align_pow2: usize|
            #![trigger self.alloc_pages_step(num_pages as int, align_pow2 as nat, Ok::<usize, AllocError>(addr), next)]
            align_pow2 < usize::BITS && len == num_pages * PAGE_SIZE && self.alloc_pages_step(
                num_pages as int,
                align_pow2 as nat,
                Ok::<usize, AllocError>(addr),
                next,
            )
    }

    /// A successful allocation of either kind hands out a span inside the
    /// free gap, and the free gap left after it does not meet that span.
    pub proof fn lemma_allocation_within_gap(&self, next: &Self, addr: usize, len: int)
        requires
            self.wf(),
            self.allocates(next, addr, len),
        ensures
            len >= 0,
            self.start() <= self.byte_pos() <= addr,
            addr + len <= self.page_pos() <= self.end(),
            self.same_region(next),
            self.byte_pos() <= next.byte_pos(),
            next.page_pos() <= self.page_pos(),
            addr + len <= next.byte_pos() || next.page_pos() <= addr,
    {
        if exists|size: usize, align: usize|
            #![trigger self.alloc_step(size as int, align as int, Ok::<usize, AllocError>(addr), next)]
            is_pow2(align) && len == size && self.alloc_step(
                size as int,
                align as int,
                Ok::<usize, AllocError>(addr),
                next,
            ) {
            let (size, align) = choose|size: usize, align: usize|
                #![trigger self.alloc_step(size as int, align as int, Ok::<usize, AllocError>(addr), next)]
                is_pow2(align) && len == size && self.alloc_step(
                    size as int,
                    align as int,
                    Ok::<usize, AllocError>(addr),
                    next,
                );
            crate::align::lemma_align_positive(align);
            crate::align::lemma_round_up_bounds(self.byte_pos(), align as int);
        } else {
            let (num_pages, align_pow2) = choose|num_pages: usize, align_pow2: usize|
                #![trigger self.alloc_pages_step(num_pages as int, align_pow2 as nat, Ok::<usize, AllocError>(addr), next)]
                align_pow2 < usize::BITS && len == num_pages * PAGE_SIZE && self.alloc_pages_step(
                    num_pages as int,
                    align_pow2 as nat,
                    Ok::<usize, AllocError>(addr),
                    next,
                );
            lemma_shift_is_pow2(align_pow2);
            crate::align::lemma_align_positive(1usize << align_pow2);
            assert(num_pages * PAGE_SIZE >= 0) by (nonlinear_arith)
                requires
                    PAGE_SIZE > 0,
            ;
            crate::align::lemma_round_down_bounds(
                self.page_pos() - num_pages * PAGE_SIZE,
                pow2(align_pow2 as nat) as int,
            );
        }
    }

    /// Over a run of successful allocations of either kind, with no frees in
    /// between, every span handed out lies in `[start, end)` and no two of
    /// them overlap.
    pub proof fn lemma_allocations_disjoint(states: Seq<Self>, addrs: Seq<usize>, lens: Seq<int>)
        requires
            states.len() == addrs.len() + 1,
            lens.len() == addrs.len(),
            forall|i: int| 0 <= i < states.len() ==> #[trigger] states[i].wf(),
            forall|i: int|
                0 <= i < addrs.len() ==> #[trigger] states[i].allocates(&states[i + 1], addrs[i], lens[i]),
        ensures
            forall|i: int|
                0 <= i < addrs.len() ==> states[0].start() <= #[trigger] addrs[i] && addrs[i] + lens[i]
                    <= states[0].end(),
            forall|i: int, j: int|
                0 <= i < j < addrs.len() ==> #[trigger] addrs[i] + lens[i] <= #[trigger] addrs[j] || addrs[j]
                    + lens[j] <= addrs[i],
    {
        assert forall|i: int| 0 <= i < addrs.len() implies {
            &&& #[trigger] states[i].shrinks_to(&states[i + 1])
            &&& lens[i] >= 0
            &&& states[i].byte_pos() <= addrs[i]
            &&& addrs[i] + lens[i] <= states[i].page_pos()
            &&& states[i].same_region(&states[i + 1])
            &&& states[i].byte_pos() <= states[i + 1].byte_pos()
            &&& states[i + 1].page_pos() <= states[i].page_pos()
            &&& addrs[i] + lens[i] <= states[i + 1].byte_pos() || states[i + 1].page_pos() <= addrs[i]
        } by {
            states[i].lemma_allocation_within_gap(&states[i + 1], addrs[i], lens[i]);
        }
        assert forall|i: int, j: int| 0 <= i < j < addrs.len() implies #[trigger] addrs[i] + lens[i]
            <= #[trigger] addrs[j] || addrs[j] + lens[j] <= addrs[i] by {
            states[i].lemma_allocation_within_gap(&states[i + 1], addrs[i], lens[i]);
            states[j].lemma_allocation_within_gap(&states[j + 1], addrs[j], lens[j]);
            Self::lemma_gap_shrinks(states, i + 1, j);
        }
        assert forall|i: int| 0 <= i < addrs.len() implies states[0].start() <= #[trigger] addrs[i]
            && addrs[i] + lens[i] <= states[0].end() by {
            states[i].lemma_allocation_within_gap(&states[i + 1], addrs[i], lens[i]);
            Self::lemma_gap_shrinks(states, 0, i);
        }
    }

    /// The free gap of `next` lies inside that of `self`.
    spec fn shrinks_to(&self, next: &Self) -> bool {
        &&& self.same_region(next)
        &&& self.byte_pos() <= next.byte_pos()
        &&& next.page_pos() <= self.page_pos()
    }

    proof fn lemma_gap_shrinks(states: Seq<Self>, i: int, j: int)
        requires
            0 <= i <= j < states.len(),
            forall|k: int| 0 <= k < states.len() - 1 ==> #[trigger] states[k].shrinks_to(&states[k + 1]),
        ensures
            states[i].shrinks_to(&states[j]),
        decreases j,
    {
        if i < j {
            Self::lemma_gap_shrinks(states, i, j - 1);
            assert(states[j - 1].shrinks_to(&states[j - 1 + 1]));
        }
    }

    /// What the first `n` byte allocations of a run take: for each, the
    /// padding up to its alignment plus its size.
    pub open spec fn byte_run_cost(
        states: Seq<Self>,
        sizes: Seq<usize>,
        aligns: Seq<usize>,
        n: nat,
    ) -> int
        decreases n,
    {
        if n == 0 {
            0
        } else {
            let k = n - 1;
            Self::byte_run_cost(states, sizes, aligns, k as nat) + (states[k].byte_target(
                aligns[k] as int,
            ) - states[k].byte_pos()) + sizes[k]
        }
    }

    /// After a run of successful byte allocations on an allocator with
    /// nothing in use, the bytes in use are the sum of the alignment padding
    /// and the sizes, and at no point does `byte_pos` pass `page_pos`.
    pub proof fn lemma_byte_run_usage(
        states: Seq<Self>,
        sizes: Seq<usize>,
        aligns: Seq<usize>,
        addrs: Seq<usize>,
    )
        requires
            states.len() == sizes.len() + 1,
            aligns.len() == sizes.len(),
            addrs.len() == sizes.len(),
            states[0].wf(),
            states[0].spec_used_bytes() == 0,
            forall|i: int|
                0 <= i < sizes.len() ==> #[trigger] states[i].alloc_step(
                    sizes[i] as int,
                    aligns[i] as int,
                    Ok::<usize, AllocError>(addrs[i]),
                    &states[i + 1],
                ),
        ensures
            states.last().spec_used_bytes() == Self::byte_run_cost(
                states,
                sizes,
                aligns,
                sizes.len() as nat,
            ),
            forall|i: int| 0 <= i < states.len() ==> #[trigger] states[i].byte_pos() <= states[i].page_pos(),
        decreases sizes.len(),
    {
        let n = sizes.len();
        if n > 0 {
            let k = n - 1;
            Self::lemma_byte_run_usage(
                states.drop_last(),
                sizes.drop_last(),
                aligns.drop_last(),
                addrs.drop_last(),
            );
            assert(states[k].alloc_step(
                sizes[k] as int,
                aligns[k] as int,
                Ok::<usize, AllocError>(addrs[k]),
                &states[k + 1],
            ));
            Self::lemma_byte_run_cost_prefix(states, sizes, aligns, k as nat);
            assert(states.drop_last()[k as int] == states[k as int]);
            assert forall|i: int| 0 <= i < states.len() implies #[trigger] states[i].byte_pos()
                <= states[i].page_pos() by {
                if i < n {
                    assert(states.drop_last()[i] == states[i]);
                }
            }
        }
    }

    proof fn lemma_byte_run_cost_prefix(states: Seq<Self>, sizes: Seq<usize>, aligns: Seq<usize>, n: nat)
        requires
            n < sizes.len(),
            states.len() == sizes.len() + 1,
            aligns.len() == sizes.len(),
        ensures
            Self::byte_run_cost(states, sizes, aligns, n) == Self::byte_run_cost(
                states.drop_last(),
                sizes.drop_last(),
                aligns.drop_last(),
                n,
            ),
        decreases n,
    {
        if n > 0 {
            Self::lemma_byte_run_cost_prefix(states, sizes, aligns, (n - 1) as nat);
        }
    }

    /// Once the last outstanding byte allocation is freed, the free gap is
    /// back to what it was when the byte arena was last empty, provided no
    /// pages were taken in between: the byte arena is reclaimed exactly.
    pub proof fn lemma_last_free_restores_gap(empty: &Self, before: &Self, after: &Self)
        requires
            empty.wf(),
            empty.live_count() == 0,
            before.wf(),
            before.same_region(empty),
            before.page_pos() == empty.page_pos(),
            before.live_count() == 1,
            before.dealloc_step(after),
        ensures
            after.byte_pos() == after.start(),
            after.spec_available_bytes() == empty.spec_available_bytes(),
            after.spec_used_bytes() == empty.spec_used_bytes(),
    {
    }

    /// An allocator over the empty region at address zero; `init` must be
    /// called before anything is allocated.
    pub fn new() -> (r: Self)
        requires
            PAGE_SIZE > 0,
        ensures
            r.wf(),
            r.start() == 0,
            r.end() == 0,
            r.live_count() == 0,
    {
        EarlyAllocator { start: 0, end: 0, byte_pos: 0, page_pos: 0, count: 0 }
    }

    /// Takes `[start, start + size)` as the managed region, with both arenas
    /// empty.  Whatever was allocated before is forgotten.
    pub fn init(&mut self, start: usize, size: usize)
        requires
            PAGE_SIZE > 0,
            start + size <= usize::MAX,
        ensures
            final(self).wf(),
            final(self).start() == start,
            final(self).end() == start + size,
            final(self).byte_pos() == start,
            final(self).page_pos() == start + size,
            final(self).live_count() == 0,
            final(self).spec_available_bytes() == size,
            final(self).spec_available_pages() == size as int / PAGE_SIZE as int,
    {
        self.start = start;
        self.end = start + size;
        self.byte_pos = start;
        self.page_pos = self.end;
        self.count = 0;
    }

    /// Adding a second region is not offered: always `Unsupported`, and the
    /// allocator is left as it was.
    pub fn add_memory(&mut self, start: usize, size: usize) -> (r: Result<(), AllocError>)
        ensures
            r == Err::<(), AllocError>(AllocError::Unsupported),
            *final(self) == *old(self),
    {
        Err(AllocError::Unsupported)
    }
    /// Allocates `size` bytes aligned to `align` from the front of the free
    /// gap.  Fails with `NoMemory`, changing nothing, when the aligned block
    /// would pass `page_pos`.
    pub fn alloc_bytes(&mut self, size: usize, align: usize) -> (r: Result<usize, AllocError>)
        requires
            old(self).wf(),
            old(self).live_count() < usize::MAX,
            is_pow2(align),
        ensures
            final(self).wf(),
            old(self).alloc_step(size as int, align as int, r, final(self)),
            r is Ok <==> old(self).bytes_fit(size as int, align as int),
            r is Ok ==> final(self).spec_used_bytes() == old(self).spec_used_bytes() + (
            old(self).byte_target(align as int) - old(self).byte_pos()) + size,
    {
        proof {
            crate::align::lemma_align_positive(align);
        }
        if self.byte_pos > usize::MAX - (align - 1) {
            proof {
                crate::align::lemma_round_up_overflows(self.byte_pos, align);
            }
            return Err(AllocError::NoMemory);
        }
        let aligned_pos = align_up(self.byte_pos, align);
        if aligned_pos > self.page_pos || size > self.page_pos - aligned_pos {
            return Err(AllocError::NoMemory);
        }
        self.byte_pos = aligned_pos + size;
        self.count = self.count + 1;
        Ok(aligned_pos)
    }

    /// Frees one byte allocation.  Only the count is kept: when it reaches
    /// zero the whole byte arena is reclaimed, else `byte_pos` stays.
    /// Freeing with no allocation outstanding is a caller error.
    pub fn dealloc(&mut self, pos: usize, size: usize, align: usize)
        requires
            old(self).wf(),
            old(self).live_count() > 0,
        ensures
            final(self).wf(),
            old(self).dealloc_step(final(self)),
    {
        self.count = self.count - 1;
        if self.count == 0 {
            self.byte_pos = self.start;
        }
    }

    /// Allocates `num_pages` pages whose start is aligned to `2^align_pow2`,
    /// from the back of the free gap.  The start is rounded down, so the
    /// span taken may exceed `num_pages * PAGE_SIZE`.  Fails with
    /// `NoMemory`, changing nothing, when the rounded start would fall below
    /// `byte_pos`.
    pub fn alloc_pages(&mut self, num_pages: usize, align_pow2: usize) -> (r: Result<usize, AllocError>)
        requires
            old(self).wf(),
            align_pow2 < usize::BITS,
        ensures
            final(self).wf(),
            old(self).alloc_pages_step(num_pages as int, align_pow2 as nat, r, final(self)),
            r is Ok <==> old(self).pages_fit(num_pages as int, align_pow2 as nat),
    {
        proof {
            lemma_shift_is_pow2(align_pow2);
            crate::align::lemma_align_positive(1usize << align_pow2);
        }
        let align: usize = 1usize << align_pow2;
        let ghost target = self.page_target(num_pages as int, align_pow2 as nat);
        if num_pages > self.page_pos / PAGE_SIZE {
            proof {
                lemma_pages_exceed(self.page_pos as int, num_pages as int, PAGE_SIZE as int);
                crate::align::lemma_round_down_bounds(
                    self.page_pos - num_pages * PAGE_SIZE,
                    align as int,
                );
            }
            return Err(AllocError::NoMemory);
        }
        proof {
            lemma_pages_within(self.page_pos as int, num_pages as int, PAGE_SIZE as int);
        }
        let size = num_pages * PAGE_SIZE;
        let aligned_pos = align_down(self.page_pos - size, align);
        if aligned_pos >= self.byte_pos {
            proof {
                crate::align::lemma_round_down_bounds((self.page_pos - size) as int, align as int);
            }
            self.page_pos = aligned_pos;
            Ok(aligned_pos)
        } else {
            Err(AllocError::NoMemory)
        }
    }

    /// Freeing pages is not offered: always `Unsupported`, and the allocator
    /// is left as it was.
    pub fn dealloc_pages(&mut self, pos: usize, num_pages: usize) -> (r: Result<(), AllocError>)
        ensures
            r == Err::<(), AllocError>(AllocError::Unsupported),
            *final(self) == *old(self),
    {
        Err(AllocError::Unsupported)
    }

    /// Size of the managed region.
    pub fn total_bytes(&self) -> (r: usize)
        requires
            self.wf(),
        ensures
            r == self.spec_total_bytes(),
    {
        self.end - self.start
    }

    /// Bytes taken by both arenas.
    pub fn used_bytes(&self) -> (r: usize)
        requires
            self.wf(),
        ensures
            r == self.spec_used_bytes(),
    {
        self.byte_pos - self.start + (self.end - self.page_pos)
    }

    /// Bytes of the free gap.
    pub fn available_bytes(&self) -> (r: usize)
        requires
            self.wf(),
        ensures
            r == self.spec_available_bytes(),
    {
        self.page_pos - self.byte_pos
    }

    /// Whole pages in the managed region.
    pub fn total_pages(&self) -> (r: usize)
        requires
            self.wf(),
        ensures
            r == self.spec_total_pages(),
    {
        (self.end - self.start) / PAGE_SIZE
    }

    /// Whole pages taken by the page arena.
    pub fn used_pages(&self) -> (r: usize)
        requires
            self.wf(),
        ensures
            r == self.spec_used_pages(),
    {
        (self.end - self.page_pos) / PAGE_SIZE
    }

    /// Whole pages in the free gap.
    pub fn available_pages(&self) -> (r: usize)
        requires
            self.wf(),
        ensures
            r == self.spec_available_pages(),
    {
        (self.page_pos - self.byte_pos) / PAGE_SIZE
    }

    /// Number of byte allocations not yet freed.
    pub fn live_allocations(&self) -> (r: usize)
        ensures
            r == self.live_count(),
    {
        self.count
    }

    /// The page size this allocator was built with.
    pub fn page_size(&self) -> (r: usize)
        ensures
            r == PAGE_SIZE,
    {
        PAGE_SIZE
    }
}

proof fn lemma_pages_exceed(pos: int, n: int, ps: int)
    requires
        0 <= pos,
        ps > 0,
        n > pos / ps,
    ensures
        n * ps > pos,
{
    assert(n >= pos / ps + 1);
    assert(n * ps >= (pos / ps + 1) * ps) by (nonlinear_arith)
        requires
            n >= pos / ps + 1,
            ps > 0,
    ;
    assert((pos / ps + 1) * ps > pos) by (nonlinear_arith)
        requires
            ps > 0,
            pos >= 0,
    ;
}

proof fn lemma_pages_within(pos: int, n: int, ps: int)
    requires
        0 <= pos,
        0 <= n,
        ps > 0,
        n <= pos / ps,
    ensures
        n * ps <= pos,
{
    assert(n * ps <= (pos / ps) * ps) by (nonlinear_arith)
        requires
            n <= pos / ps,
            ps > 0,
    ;
    assert((pos / ps) * ps <= pos) by (nonlinear_arith)
        requires
            ps > 0,
            pos >= 0,
    ;
}

} // verus!
