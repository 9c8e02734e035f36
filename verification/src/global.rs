//! The allocator that the rest of the kernel asks: it routes each request to
//! the bump region, the page pool or the byte heap.
//!
//! Until `final_init` every request goes to the bump region. `final_init`
//! registers the memory of the page pool, takes the first arena of the byte
//! heap from the bump region, and only then turns the allocator over: from
//! then on page requests go to the page pool and byte requests to the byte
//! heap, which takes more pages from the pool whenever it cannot serve.

use crate::bitmap::{lemma_after_fit, lemma_after_fit_used, BitmapPageAllocator, PoolView};
use crate::block::Arena;
use crate::buddy::{
    lemma_after_add, lemma_after_alloc, lemma_round_trip, BuddyByteAllocator, HeapView,
};
use crate::config::{
    checked_next_power_of_two, is_power_of_two, lemma_align_down, lemma_next_pow2,
    lemma_page_size_pow2, lemma_pow2_divides, next_pow2, PAGE_SIZE,
};
use crate::early::{BumpView, EarlyAllocator};
use crate::{AllocError, AllocResult};
use vstd::arithmetic::power2::is_pow2;
use vstd::prelude::*;

verus! {

/// Size of the first arena of the byte heap, taken from the bump region.
pub const MIN_HEAP_SIZE: usize = 0x8000;

/// Whether a request is one for whole pages: its size is a multiple of the
/// page size and its alignment is the page size.
pub open spec fn page_request(size: usize, align: usize) -> bool {
    size % PAGE_SIZE == 0 && align == PAGE_SIZE
}

/// Bytes by which a byte heap of `total` bytes grows when it cannot serve a
/// request for `size` bytes: the larger of the two, raised to a power of two,
/// and one page at least.
pub open spec fn growth(total: int, size: usize) -> int {
    let want = if total >= size {
        total
    } else {
        size as int
    };
    let p = next_pow2(want);
    if p >= PAGE_SIZE {
        p
    } else {
        PAGE_SIZE as int
    }
}

/// Whether a request is one for whole pages.
pub fn is_page_request(size: usize, align: usize) -> (r: bool)
    ensures
        r == page_request(size, align),
{
    size % PAGE_SIZE == 0 && align == PAGE_SIZE
}

/// Bytes by which a byte heap of `total` bytes grows when it cannot serve a
/// request for `size` bytes, or `None` where they do not fit the machine
/// word.
pub fn grow_size(total: usize, size: usize) -> (r: Option<usize>)
    ensures
        match r {
            Some(g) => g == growth(total as int, size) && g >= size && g >= PAGE_SIZE && is_pow2(
                g as int,
            ) && g % PAGE_SIZE == 0,
            None => growth(total as int, size) > usize::MAX,
        },
{
    let want: usize = if total >= size {
        total
    } else {
        size
    };
    proof {
        lemma_page_size_pow2();
        lemma_next_pow2(want as int);
    }
    let p = match checked_next_power_of_two(want) {
        Some(p) => p,
        None => {
            return None;
        },
    };
    let g: usize = if p >= PAGE_SIZE {
        p
    } else {
        PAGE_SIZE
    };
    proof {
        lemma_pow2_divides(g as int, PAGE_SIZE as int);
    }
    Some(g)
}

/// The allocator as a mathematical value: its three tiers, and whether it
/// was turned over to the page pool and the byte heap.
pub struct GlobalView {
    pub early: BumpView,
    pub pages: PoolView,
    pub bytes: HeapView,
    pub finalized: bool,
}

impl GlobalView {
    /// Bytes by which the byte heap grows when it cannot serve a request for
    /// `size` bytes.
    pub open spec fn grow_size(self, size: usize) -> int {
        growth(self.bytes.total(), size)
    }

    /// Whether the page pool can give the byte heap the pages to grow by.
    pub open spec fn can_grow(self, size: usize) -> bool {
        &&& self.grow_size(size) <= usize::MAX
        &&& self.pages.has_fit(self.grow_size(size) / (PAGE_SIZE as int), PAGE_SIZE as int)
    }

    /// The arena that the byte heap is given when it grows.
    pub open spec fn grow_arena(self, size: usize) -> Arena {
        let count = self.grow_size(size) / (PAGE_SIZE as int);
        Arena {
            start: self.pages.fit_addr(count, PAGE_SIZE as int) as usize,
            size: self.grow_size(size) as usize,
        }
    }

    /// The allocator after the byte heap grew once: the pages are taken from
    /// the pool, and the heap has them as an arena if it admits them.
    pub open spec fn grown(self, size: usize) -> GlobalView {
        let count = self.grow_size(size) / (PAGE_SIZE as int);
        let arena = self.grow_arena(size);
        GlobalView {
            pages: self.pages.after_fit(count, PAGE_SIZE as int),
            bytes: if self.bytes.admits_arena(arena) {
                self.bytes.after_add(arena)
            } else {
                self.bytes
            },
            ..self
        }
    }

    /// Whether a return can be asked: before the turn-over no pages can be
    /// returned, and bytes only while a byte allocation is outstanding.
    pub open spec fn admits_dealloc(self, size: usize, align: usize) -> bool {
        self.finalized || (!page_request(size, align) && self.early.count > 0)
    }

    /// What a page allocation returns and leaves: that of the page pool after
    /// the turn-over, that of the bump region before.
    pub open spec fn alloc_pages_post(
        self,
        after: GlobalView,
        size: usize,
        align: usize,
        r: AllocResult<usize>,
    ) -> bool {
        if self.finalized {
            &&& self.pages.alloc_post(after.pages, size / PAGE_SIZE, align, r)
            &&& after == GlobalView { pages: after.pages, ..self }
        } else {
            &&& self.early.alloc_pages_post(after.early, size, align, r)
            &&& after == GlobalView { early: after.early, ..self }
        }
    }

    /// What a return of pages gives and leaves: that of the page pool.
    pub open spec fn dealloc_pages_post(
        self,
        after: GlobalView,
        addr: usize,
        size: usize,
        r: AllocResult,
    ) -> bool {
        &&& self.pages.dealloc_post(after.pages, addr, size / PAGE_SIZE, r)
        &&& after == GlobalView { pages: after.pages, ..self }
    }

    /// What a byte allocation returns and leaves. Before the turn-over it is
    /// that of the bump region. After it, the byte heap first grows as long
    /// as it cannot serve and the pool can give; then the request is served
    /// by the heap, or fails with `NoMemory`.
    pub open spec fn alloc_bytes_post(
        self,
        after: GlobalView,
        size: usize,
        align: usize,
        r: AllocResult<usize>,
    ) -> bool {
        if !self.finalized {
            &&& self.early.alloc_bytes_post(after.early, size, align, r)
            &&& after == GlobalView { early: after.early, ..self }
        } else if !is_pow2(align as int) {
            r == Err::<usize, AllocError>(AllocError::InvalidParam) && after == self
        } else {
            let s = settled(self, size, align);
            match r {
                Ok(_) => {
                    &&& s.bytes.alloc_post(after.bytes, size, align, r)
                    &&& after == GlobalView { bytes: after.bytes, ..s }
                },
                Err(e) => {
                    &&& e == AllocError::NoMemory
                    &&& !s.bytes.has_fit(HeapView::block_size(size as int, align as int))
                    &&& !s.can_grow(size)
                    &&& after == s
                },
            }
        }
    }

    /// What a return of bytes gives and leaves: that of the byte heap after
    /// the turn-over; before it the bump region counts one allocation less.
    pub open spec fn dealloc_bytes_post(
        self,
        after: GlobalView,
        addr: usize,
        size: usize,
        r: AllocResult,
    ) -> bool {
        if self.finalized {
            &&& self.bytes.dealloc_post(after.bytes, addr, size, r)
            &&& after == GlobalView { bytes: after.bytes, ..self }
        } else {
            &&& r == Ok::<(), AllocError>(())
            &&& after == GlobalView { early: self.early.after_dealloc_bytes(), ..self }
        }
    }

    /// What `final_init` gives and leaves: the pool holds the region, and if
    /// the bump region had the pages for the first arena, the byte heap holds
    /// that arena and the allocator is turned over.
    pub open spec fn final_init_post(
        self,
        after: GlobalView,
        start: usize,
        size: usize,
        r: AllocResult,
    ) -> bool {
        let pool = PoolView::fresh(start as int, size as int);
        match r {
            Ok(()) => {
                &&& self.early.pages_fit(MIN_HEAP_SIZE as int, PAGE_SIZE as int)
                &&& after == GlobalView {
                    early: self.early.after_alloc_pages(MIN_HEAP_SIZE as int, PAGE_SIZE as int),
                    pages: pool,
                    bytes: HeapView::empty().after_add(
                        Arena {
                            start: self.early.pages_candidate(
                                MIN_HEAP_SIZE as int,
                                PAGE_SIZE as int,
                            ) as usize,
                            size: MIN_HEAP_SIZE,
                        },
                    ),
                    finalized: true,
                }
            },
            Err(e) => {
                &&& e == AllocError::NoMemory
                &&& !self.early.pages_fit(MIN_HEAP_SIZE as int, PAGE_SIZE as int)
                &&& after == GlobalView { pages: pool, ..self }
            },
        }
    }
}

/// The allocator after the byte heap grew as often as it could not serve the
/// request and the page pool could give it the pages.
pub open spec fn settled(v: GlobalView, size: usize, align: usize) -> GlobalView
    decreases v.pages.free_frames(),
    via settled_decreases
{
    if v.bytes.has_fit(HeapView::block_size(size as int, align as int)) || !v.can_grow(size) {
        v
    } else {
        settled(v.grown(size), size, align)
    }
}

#[via_fn]
proof fn settled_decreases(v: GlobalView, size: usize, align: usize) {
    if v.can_grow(size) {
        lemma_grown_takes_frames(v, size);
    }
}

/// Growing takes at least one frame from the free frames of the pool.
pub proof fn lemma_grown_takes_frames(v: GlobalView, size: usize)
    requires
        v.can_grow(size),
    ensures
        0 <= v.grown(size).pages.free_frames() < v.pages.free_frames(),
        v.grow_size(size) >= size,
        v.grow_size(size) % (PAGE_SIZE as int) == 0,
        is_pow2(v.grow_size(size)),
{
    let g = v.grow_size(size);
    let count = g / (PAGE_SIZE as int);
    lemma_page_size_pow2();
    let want = if v.bytes.total() >= size {
        v.bytes.total()
    } else {
        size as int
    };
    lemma_next_pow2(want);
    lemma_pow2_divides(g, PAGE_SIZE as int);
    lemma_after_fit_used(v.pages, count, PAGE_SIZE as int);
}

/// Growing moves neither the bump region nor the flag.
pub proof fn lemma_settled_keeps(v: GlobalView, size: usize, align: usize)
    ensures
        settled(v, size, align).early == v.early,
        settled(v, size, align).finalized == v.finalized,
    decreases v.pages.free_frames(),
{
    if !v.bytes.has_fit(HeapView::block_size(size as int, align as int)) && v.can_grow(size) {
        lemma_grown_takes_frames(v, size);
        lemma_settled_keeps(v.grown(size), size, align);
    }
}

/// Growing keeps the pool and the heap well-formed and every block of the
/// heap where it was. The total of the heap never shrinks, and where the
/// heap could not serve the request before and can after, it grew by the
/// size of the request at least.
#[verifier::rlimit(50)]
pub proof fn lemma_settled(v: GlobalView, size: usize, align: usize)
    requires
        v.pages.wf(),
        v.bytes.wf(),
    ensures
        ({
            let s = settled(v, size, align);
            let need = HeapView::block_size(size as int, align as int);
            &&& s.pages.wf()
            &&& s.bytes.wf()
            &&& s.bytes.total() >= v.bytes.total()
            &&& s.bytes.used() == v.bytes.used()
            &&& v.bytes.has_fit(need) ==> s == v
            &&& !v.bytes.has_fit(need) && s.bytes.has_fit(need) ==> s.bytes.total()
                >= v.bytes.total() + size
            &&& forall|k: int, a: usize, z: usize| #[trigger]
                v.bytes.holds(k, a, z) ==> s.bytes.holds(k, a, z)
        }),
    decreases v.pages.free_frames(),
{
    let need = HeapView::block_size(size as int, align as int);
    if !v.bytes.has_fit(need) && v.can_grow(size) {
        let g = v.grown(size);
        let count = v.grow_size(size) / (PAGE_SIZE as int);
        let arena = v.grow_arena(size);
        lemma_grown_takes_frames(v, size);
        lemma_after_fit(v.pages, count, PAGE_SIZE as int);
        if v.bytes.admits_arena(arena) {
            lemma_after_add(v.bytes, arena);
        }
        lemma_settled(g, size, align);
        let s = settled(v, size, align);
        assert forall|k: int, a: usize, z: usize| #[trigger] v.bytes.holds(k, a, z) implies s.bytes.holds(
            k,
            a,
            z,
        ) by {
            assert(g.bytes.holds(k, a, z));
        }
    }
}

/// Growth: a byte allocation after the turn-over never shrinks the heap;
/// where the heap could not serve it and it succeeds, the heap grew by the
/// size of the request at least; and whatever was live in the heap is live
/// afterwards, at its address.
#[verifier::rlimit(50)]
pub proof fn lemma_growth(
    v: GlobalView,
    after: GlobalView,
    size: usize,
    align: usize,
    r: AllocResult<usize>,
)
    requires
        v.finalized,
        v.pages.wf(),
        v.bytes.wf(),
        v.alloc_bytes_post(after, size, align, r),
    ensures
        after.pages.wf(),
        after.bytes.wf(),
        after.bytes.total() >= v.bytes.total(),
        r is Ok && !v.bytes.has_fit(HeapView::block_size(size as int, align as int))
            ==> after.bytes.total() >= v.bytes.total() + size,
        forall|a: usize, z: usize| #[trigger]
            v.bytes.is_live(a, z) ==> after.bytes.is_live(a, z),
{
    let need = HeapView::block_size(size as int, align as int);
    if is_pow2(align as int) {
        let s = settled(v, size, align);
        lemma_settled(v, size, align);
        if r is Ok {
            lemma_after_alloc(s.bytes, s.bytes.best_fit(need), size, align);
        }
        assert forall|a: usize, z: usize| #[trigger] v.bytes.is_live(a, z) implies after.bytes.is_live(
            a,
            z,
        ) by {
            let k = choose|k: int| #[trigger] v.bytes.holds(k, a, z);
            assert(s.bytes.holds(k, a, z));
            assert(after.bytes.holds(k, a, z));
        }
    }
}

/// Round trip: bytes that are allocated and returned at once leave the heap
/// with the bytes in use that it had, and with the total that it had after
/// the allocation, which is the total from before where the heap did not
/// have to grow.
pub proof fn lemma_bytes_round_trip(
    v: GlobalView,
    w: GlobalView,
    u: GlobalView,
    size: usize,
    align: usize,
    addr: usize,
    r: AllocResult,
)
    requires
        v.finalized,
        v.pages.wf(),
        v.bytes.wf(),
        v.alloc_bytes_post(w, size, align, Ok(addr)),
        w.dealloc_bytes_post(u, addr, size, r),
    ensures
        r is Ok,
        u.bytes.wf(),
        u.bytes.used() == v.bytes.used(),
        u.bytes.total() == w.bytes.total(),
        v.bytes.has_fit(HeapView::block_size(size as int, align as int)) ==> u.bytes.total()
            == v.bytes.total(),
        u.pages == w.pages,
{
    let s = settled(v, size, align);
    lemma_settled(v, size, align);
    lemma_settled_keeps(v, size, align);
    lemma_round_trip(s.bytes, w.bytes, u.bytes, size, align, addr, r);
}

/// Round trip: pages that are allocated and returned at once leave the page
/// pool as it was.
pub proof fn lemma_pages_round_trip(
    v: GlobalView,
    w: GlobalView,
    u: GlobalView,
    size: usize,
    align: usize,
    addr: usize,
    r: AllocResult,
)
    requires
        v.finalized,
        v.pages.wf(),
        v.alloc_pages_post(w, size, align, Ok(addr)),
        w.dealloc_pages_post(u, addr, size, r),
    ensures
        r is Ok,
        u == v,
{
    lemma_after_fit(v.pages, (size / PAGE_SIZE) as int, align as int);
}

/// No request sees the turn-over half done: the flag that a request finds
/// decides its whole route and is the flag that it leaves. Before the
/// turn-over a request moves the bump region alone; after it, the page pool
/// and the byte heap alone.
pub proof fn lemma_route_is_whole(
    v: GlobalView,
    after: GlobalView,
    addr: usize,
    size: usize,
    align: usize,
    got: AllocResult<usize>,
    done: AllocResult,
)
    requires
        ({
            ||| v.alloc_pages_post(after, size, align, got)
            ||| v.alloc_bytes_post(after, size, align, got)
            ||| v.finalized && v.dealloc_pages_post(after, addr, size, done)
            ||| v.dealloc_bytes_post(after, addr, size, done)
        }),
    ensures
        after.finalized == v.finalized,
        !v.finalized ==> after.pages == v.pages && after.bytes == v.bytes,
        v.finalized ==> after.early == v.early,
{
    lemma_settled_keeps(v, size, align);
}

/// The turn-over happens once and for good: `final_init` sets the flag where
/// it succeeds and leaves it unset where it fails.
pub proof fn lemma_turn_over(
    v: GlobalView,
    after: GlobalView,
    start: usize,
    size: usize,
    r: AllocResult,
)
    requires
        !v.finalized,
        v.final_init_post(after, start, size, r),
    ensures
        after.finalized == (r is Ok),
        after.pages == PoolView::fresh(start as int, size as int),
        r is Err ==> after.early == v.early && after.bytes == v.bytes,
{
}

/// The allocator.
pub struct GlobalAllocator {
    early: EarlyAllocator,
    pages: BitmapPageAllocator,
    bytes: BuddyByteAllocator,
    finalized: bool,
}

impl View for GlobalAllocator {
    type V = GlobalView;

    closed spec fn view(&self) -> GlobalView {
        GlobalView {
            early: self.early@,
            pages: self.pages@,
            bytes: self.bytes@,
            finalized: self.finalized,
        }
    }
}

impl GlobalAllocator {
    /// Each tier is well-formed.
    pub closed spec fn wf(&self) -> bool {
        &&& self.early@.wf()
        &&& self.pages.wf()
        &&& self.bytes.wf()
    }

    /// A well-formed allocator has well-formed tiers.
    pub proof fn lemma_wf_view(&self)
        requires
            self.wf(),
        ensures
            self@.early.wf(),
            self@.pages.wf(),
            self@.bytes.wf(),
    {
        self.pages.lemma_wf_view();
        self.bytes.lemma_wf_view();
    }

    /// An allocator whose tiers hold nothing yet.
    pub fn new() -> (r: Self)
        ensures
            r.wf(),
            r@ == (GlobalView {
                early: BumpView::zeroed(),
                pages: PoolView::empty(),
                bytes: HeapView::empty(),
                finalized: false,
            }),
    {
        Self {
            early: EarlyAllocator::uninit_new(),
            pages: BitmapPageAllocator::new(),
            bytes: BuddyByteAllocator::new(),
            finalized: false,
        }
    }

    /// Whether the allocator was turned over to the page pool and the byte
    /// heap.
    pub fn is_finalized(&self) -> (r: bool)
        ensures
            r == self@.finalized,
    {
        self.finalized
    }

    /// Whether `deallocate` can be asked for a request of this size and
    /// alignment.
    pub fn can_deallocate(&self, size: usize, align: usize) -> (r: bool)
        ensures
            r == self@.admits_dealloc(size, align),
    {
        self.finalized || (!is_page_request(size, align) && self.early.outstanding() > 0)
    }

    /// The bump region.
    pub fn early(&self) -> (r: &EarlyAllocator)
        ensures
            r@ == self@.early,
            self.wf() ==> r@.wf(),
    {
        &self.early
    }

    /// The page pool.
    pub fn pages(&self) -> (r: &BitmapPageAllocator)
        ensures
            r@ == self@.pages,
            self.wf() ==> r.wf(),
    {
        &self.pages
    }

    /// The byte heap.
    pub fn bytes(&self) -> (r: &BuddyByteAllocator)
        ensures
            r@ == self@.bytes,
            self.wf() ==> r.wf(),
    {
        &self.bytes
    }

    /// Gives the bump region its range.
    pub fn early_init(&mut self, start: usize, size: usize)
        requires
            old(self).wf(),
            start + size <= usize::MAX,
        ensures
            final(self).wf(),
            final(self)@ == (GlobalView {
                early: old(self)@.early.init(start as int, size as int),
                ..old(self)@
            }),
    {
        self.early.init(start, size)
    }

    /// Turns the allocator over: registers `[start, start + size)` with the
    /// page pool, takes the first arena of the byte heap from the bump
    /// region, and sets the flag.
    ///
    /// Fails with `NoMemory` where the bump region has not the pages for the
    /// arena; the allocator then is not turned over.
    pub fn final_init(&mut self, start: usize, size: usize) -> (r: AllocResult)
        requires
            old(self).wf(),
            !old(self)@.finalized,
            start + size <= usize::MAX,
        ensures
            final(self).wf(),
            old(self)@.final_init_post(final(self)@, start, size, r),
    {
        self.pages.init(start, size);
        proof {
            lemma_page_size_pow2();
            lemma_align_down(self.early@.page_pos - MIN_HEAP_SIZE, PAGE_SIZE as int);
        }
        // the flag is not set yet: these pages come from the bump region
        let heap_ptr = match self.alloc_pages(MIN_HEAP_SIZE, PAGE_SIZE) {
            Ok(heap_ptr) => heap_ptr,
            Err(e) => {
                return Err(e);
            },
        };
        match self.bytes.init(heap_ptr, MIN_HEAP_SIZE) {
            Ok(()) => {},
            Err(e) => {
                return Err(e);
            },
        }
        self.finalized = true;
        Ok(())
    }

    /// Allocates `size` bytes at a multiple of `align`, as pages where the
    /// request is one for whole pages, as bytes else.
    pub fn allocate(&mut self, size: usize, align: usize) -> (r: AllocResult<usize>)
        requires
            old(self).wf(),
        ensures
            final(self).wf(),
            if page_request(size, align) {
                old(self)@.alloc_pages_post(final(self)@, size, align, r)
            } else {
                old(self)@.alloc_bytes_post(final(self)@, size, align, r)
            },
    {
        if is_page_request(size, align) {
            self.alloc_pages(size, align)
        } else {
            self.alloc_bytes(size, align)
        }
    }

    /// Returns the allocation of `size` bytes at `addr`, to the tier that a
    /// request of this size and alignment is routed to.
    pub fn deallocate(&mut self, addr: usize, size: usize, align: usize) -> (r: AllocResult)
        requires
            old(self).wf(),
            old(self)@.admits_dealloc(size, align),
        ensures
            final(self).wf(),
            if page_request(size, align) {
                old(self)@.dealloc_pages_post(final(self)@, addr, size, r)
            } else {
                old(self)@.dealloc_bytes_post(final(self)@, addr, size, r)
            },
    {
        if is_page_request(size, align) {
            self.dealloc_pages(addr, size)
        } else {
            self.dealloc_bytes(addr, size)
        }
    }

    /// Allocates `size` bytes of whole pages: from the page pool after the
    /// turn-over, from the bump region before.
    pub fn alloc_pages(&mut self, size: usize, align: usize) -> (r: AllocResult<usize>)
        requires
            old(self).wf(),
            size % PAGE_SIZE == 0,
        ensures
            final(self).wf(),
            old(self)@.alloc_pages_post(final(self)@, size, align, r),
    {
        if self.finalized {
            self.pages.alloc_pages(size / PAGE_SIZE, align)
        } else {
            self.early.alloc_pages(size, align)
        }
    }

    /// Returns `size` bytes of whole pages at `addr` to the page pool.
    pub fn dealloc_pages(&mut self, addr: usize, size: usize) -> (r: AllocResult)
        requires
            old(self).wf(),
            old(self)@.finalized,
        ensures
            final(self).wf(),
            old(self)@.dealloc_pages_post(final(self)@, addr, size, r),
    {
        self.pages.dealloc_pages(addr, size / PAGE_SIZE)
    }

    /// Allocates `size` bytes: from the bump region before the turn-over;
    /// after it from the byte heap, which grows by pages of the pool as long
    /// as it cannot serve the request.
    #[verifier::rlimit(50)]
    pub fn alloc_bytes(&mut self, size: usize, align: usize) -> (r: AllocResult<usize>)
        requires
            old(self).wf(),
        ensures
            final(self).wf(),
            old(self)@.alloc_bytes_post(final(self)@, size, align, r),
    {
        if !self.finalized {
            return self.early.alloc_bytes(size, align);
        }
        if !is_power_of_two(align) {
            return Err(AllocError::InvalidParam);
        }
        loop
            invariant
                self.wf(),
                self@.finalized,
                old(self)@.finalized,
                is_pow2(align as int),
                self@.early == old(self)@.early,
                settled(self@, size, align) == settled(old(self)@, size, align),
            decreases self@.pages.free_frames(),
        {
            let ghost before = self@;
            proof {
                self.pages.lemma_wf_view();
                self.bytes.lemma_wf_view();
            }
            match self.bytes.alloc_bytes(size, align) {
                Ok(addr) => {
                    return Ok(addr);
                },
                Err(_) => {},
            }
            let expand_size = match grow_size(self.bytes.total_bytes(), size) {
                Some(expand_size) => expand_size,
                None => {
                    return Err(AllocError::NoMemory);
                },
            };
            proof {
                lemma_page_size_pow2();
                assert(expand_size == before.grow_size(size));
            }
            let heap_ptr = match self.pages.alloc_pages(expand_size / PAGE_SIZE, PAGE_SIZE) {
                Ok(heap_ptr) => heap_ptr,
                Err(_) => {
                    return Err(AllocError::NoMemory);
                },
            };
            proof {
                assert(before.can_grow(size));
                lemma_grown_takes_frames(before, size);
                assert(heap_ptr == before.grow_arena(size).start);
            }
            let _ = self.bytes.add_memory(heap_ptr, expand_size);
            proof {
                assert(self@ == before.grown(size));
            }
        }
    }

    /// Returns the allocation of `size` bytes at `addr`: to the byte heap
    /// after the turn-over, to the bump region before.
    pub fn dealloc_bytes(&mut self, addr: usize, size: usize) -> (r: AllocResult)
        requires
            old(self).wf(),
            old(self)@.finalized || old(self)@.early.count > 0,
        ensures
            final(self).wf(),
            old(self)@.dealloc_bytes_post(final(self)@, addr, size, r),
    {
        if self.finalized {
            self.bytes.dealloc_bytes(addr, size)
        } else {
            self.early.dealloc_bytes(addr, size);
            Ok(())
        }
    }
}

/// Gives the bump region of `allocator` its range; to be called once, before
/// anything is allocated.
pub fn early_init(allocator: &mut GlobalAllocator, start: usize, len: usize)
    requires
        old(allocator).wf(),
        start + len <= usize::MAX,
    ensures
        final(allocator).wf(),
        final(allocator)@ == (GlobalView {
            early: old(allocator)@.early.init(start as int, len as int),
            ..old(allocator)@
        }),
{
    allocator.early_init(start, len)
}

/// Turns `allocator` over to the page pool on `[start, start + len)` and the
/// byte heap; to be called once, when the memory of the machine is known.
pub fn final_init(allocator: &mut GlobalAllocator, start: usize, len: usize) -> (r: AllocResult)
    requires
        old(allocator).wf(),
        !old(allocator)@.finalized,
        start + len <= usize::MAX,
    ensures
        final(allocator).wf(),
        old(allocator)@.final_init_post(final(allocator)@, start, len, r),
{
    allocator.final_init(start, len)
}

} // verus!
