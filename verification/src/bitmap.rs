//! The page pool: the page frames of one or more regions of memory.
//!
//! A request is served by the first region that has a run of free frames for
//! it, at the lowest place in that region; a run never reaches from one
//! region into another. Frames return to the region that holds them.

use crate::config::{is_power_of_two, lemma_pow2_positive, PAGE_SIZE};
use crate::region::{
    lemma_after_alloc_used, lemma_after_alloc_wf, lemma_after_dealloc_wf, lemma_count_used_bound,
    lemma_live_apart, lemma_region_round_trip, PageRegion, RegionView,
};
use crate::{AllocError, AllocResult};
use vstd::prelude::*;

verus! {

/// Frames in all the regions.
pub open spec fn sum_frames(regions: Seq<RegionView>) -> nat
    decreases regions.len(),
{
    if regions.len() == 0 {
        0
    } else {
        sum_frames(regions.drop_last()) + regions.last().frames.len()
    }
}

/// Frames in all the regions that belong to an allocation.
pub open spec fn sum_used(regions: Seq<RegionView>) -> nat
    decreases regions.len(),
{
    if regions.len() == 0 {
        0
    } else {
        sum_used(regions.drop_last()) + regions.last().used()
    }
}

/// The page pool as a mathematical value: its regions, in the order in which
/// they were registered.
pub struct PoolView {
    pub regions: Seq<RegionView>,
}

impl PoolView {
    /// The pool without any region.
    pub open spec fn empty() -> PoolView {
        PoolView { regions: Seq::empty() }
    }

    /// Every region is well-formed and has frames, no two regions share an
    /// address, and the frames can be counted.
    pub open spec fn wf(self) -> bool {
        &&& forall|i: int|
            0 <= i < self.regions.len() ==> (#[trigger] self.regions[i]).wf()
                && self.regions[i].frames.len() > 0
        &&& forall|i: int, j: int|
            0 <= i < self.regions.len() && 0 <= j < self.regions.len() && i != j
                ==> #[trigger] self.regions[i].disjoint(self.regions[j])
        &&& sum_frames(self.regions) <= usize::MAX
    }

    /// Frames that the pool manages.
    pub open spec fn total(self) -> nat {
        sum_frames(self.regions)
    }

    /// Frames that belong to an allocation.
    pub open spec fn used(self) -> nat {
        sum_used(self.regions)
    }

    /// Frames that are free.
    pub open spec fn free_frames(self) -> int {
        self.total() - self.used()
    }

    /// Region `ri` can serve the request.
    pub open spec fn serves(self, ri: int, count: int, align: int) -> bool {
        0 <= ri < self.regions.len() && self.regions[ri].has_first_fit(count, align)
    }

    /// Some region can serve the request.
    pub open spec fn has_fit(self, count: int, align: int) -> bool {
        exists|ri: int| #[trigger] self.serves(ri, count, align)
    }

    /// Region `ri` is the first that can serve the request.
    pub open spec fn is_first_region(self, ri: int, count: int, align: int) -> bool {
        &&& self.serves(ri, count, align)
        &&& forall|rj: int| 0 <= rj < ri ==> !#[trigger] self.serves(rj, count, align)
    }

    /// The first region that can serve the request.
    pub open spec fn first_region(self, count: int, align: int) -> int {
        choose|ri: int| self.is_first_region(ri, count, align)
    }

    /// Address at which the request is served: the first fit of the first
    /// region that can serve it.
    pub open spec fn fit_addr(self, count: int, align: int) -> int {
        let region = self.regions[self.first_region(count, align)];
        region.addr_of(region.first_fit(count, align))
    }

    /// The pool after the request was served.
    pub open spec fn after_fit(self, count: int, align: int) -> PoolView {
        let ri = self.first_region(count, align);
        let region = self.regions[ri];
        PoolView {
            regions: self.regions.update(
                ri,
                region.after_alloc(region.first_fit(count, align), count),
            ),
        }
    }

    /// Region `ri` holds address `addr`.
    pub open spec fn owns(self, ri: int, addr: int) -> bool {
        0 <= ri < self.regions.len() && self.regions[ri].has(addr)
    }

    /// Some region holds address `addr`.
    pub open spec fn has_owner(self, addr: int) -> bool {
        exists|ri: int| #[trigger] self.owns(ri, addr)
    }

    /// The region that holds address `addr`.
    pub open spec fn owner(self, addr: int) -> int {
        choose|ri: int| #[trigger] self.owns(ri, addr)
    }

    /// Whether a return names a frame of the pool by its address and at
    /// least one frame.
    pub open spec fn valid_return(self, addr: int, count: int) -> bool {
        self.has_owner(addr) && self.regions[self.owner(addr)].valid_return(addr, count)
    }

    /// An allocation of `count` frames is live at address `addr`.
    pub open spec fn is_live(self, addr: int, count: int) -> bool {
        let region = self.regions[self.owner(addr)];
        &&& self.valid_return(addr, count)
        &&& region.is_live(region.index_of(addr), count)
    }

    /// The pool after the allocation of `count` frames at `addr` was
    /// returned.
    pub open spec fn after_return(self, addr: int, count: int) -> PoolView {
        let ri = self.owner(addr);
        let region = self.regions[ri];
        PoolView {
            regions: self.regions.update(ri, region.after_dealloc(region.index_of(addr), count)),
        }
    }

    /// Why the region of the whole pages within `[start, start + size)`
    /// cannot be registered, if it cannot: it is malformed where it leaves
    /// the address space or holds no whole page, and it overlaps where it
    /// shares an address with a region of the pool.
    pub open spec fn add_error(self, start: usize, size: usize) -> Option<AllocError> {
        let region = RegionView::fresh(start as int, size as int);
        if start + size > usize::MAX || region.frames.len() == 0 {
            Some(AllocError::InvalidParam)
        } else if exists|i: int|
            0 <= i < self.regions.len() && !#[trigger] self.regions[i].disjoint(region) {
            Some(AllocError::MemoryOverlap)
        } else if self.total() + region.frames.len() > usize::MAX {
            Some(AllocError::InvalidParam)
        } else {
            None
        }
    }

    /// The pool that `init(start, size)` makes: the whole pages within
    /// `[start, start + size)` as its one region, or no region where there
    /// is no whole page.
    pub open spec fn fresh(start: int, size: int) -> PoolView {
        let region = RegionView::fresh(start, size);
        if region.frames.len() > 0 {
            PoolView { regions: seq![region] }
        } else {
            PoolView::empty()
        }
    }

    /// What an allocation returns and leaves: on success the address of the
    /// fit and the pool with the run marked; else the error and the pool as
    /// it was.
    pub open spec fn alloc_post(
        self,
        after: PoolView,
        count: usize,
        align: usize,
        r: AllocResult<usize>,
    ) -> bool {
        match r {
            Ok(addr) => {
                let ri = self.first_region(count as int, align as int);
                let region = self.regions[ri];
                &&& RegionView::valid_request(count as int, align as int)
                &&& self.has_fit(count as int, align as int)
                &&& self.is_first_region(ri, count as int, align as int)
                &&& region.is_first_fit(
                    region.first_fit(count as int, align as int),
                    count as int,
                    align as int,
                )
                &&& addr == self.fit_addr(count as int, align as int)
                &&& addr % align == 0
                &&& after == self.after_fit(count as int, align as int)
                &&& after.used() == self.used() + count
                &&& after.total() == self.total()
            },
            Err(e) => {
                &&& after == self
                &&& e == if RegionView::valid_request(count as int, align as int) {
                    AllocError::NoMemory
                } else {
                    AllocError::InvalidParam
                }
                &&& RegionView::valid_request(count as int, align as int) ==> !self.has_fit(
                    count as int,
                    align as int,
                )
            },
        }
    }

    /// What a return of frames gives and leaves: on success the pool with
    /// the frames free; else the error and the pool as it was.
    pub open spec fn dealloc_post(
        self,
        after: PoolView,
        addr: usize,
        count: usize,
        r: AllocResult,
    ) -> bool {
        match r {
            Ok(()) => {
                &&& self.is_live(addr as int, count as int)
                &&& after == self.after_return(addr as int, count as int)
                &&& after.used() + count == self.used()
                &&& after.total() == self.total()
            },
            Err(e) => {
                &&& after == self
                &&& e == if self.valid_return(addr as int, count as int) {
                    AllocError::NotAllocated
                } else {
                    AllocError::InvalidParam
                }
                &&& !self.is_live(addr as int, count as int)
            },
        }
    }

    /// What registering a region gives and leaves: on success the pool with
    /// the region behind the others, all its frames free; else the error and
    /// the pool as it was.
    pub open spec fn add_post(
        self,
        after: PoolView,
        start: usize,
        size: usize,
        r: AllocResult,
    ) -> bool {
        match r {
            Ok(()) => {
                &&& self.add_error(start, size) is None
                &&& after == PoolView {
                    regions: self.regions.push(RegionView::fresh(start as int, size as int)),
                }
                &&& after.total() == self.total() + RegionView::fresh(
                    start as int,
                    size as int,
                ).frames.len()
                &&& after.used() == self.used()
            },
            Err(e) => {
                &&& after == self
                &&& self.add_error(start, size) == Some(e)
            },
        }
    }
}

/// No more frames are in use than there are.
pub proof fn lemma_sums_bound(regions: Seq<RegionView>)
    ensures
        sum_used(regions) <= sum_frames(regions),
    decreases regions.len(),
{
    if regions.len() > 0 {
        lemma_sums_bound(regions.drop_last());
        lemma_count_used_bound(regions.last().frames);
    }
}

/// A region that is added adds its frames to the sums.
pub proof fn lemma_sums_push(regions: Seq<RegionView>, region: RegionView)
    ensures
        sum_frames(regions.push(region)) == sum_frames(regions) + region.frames.len(),
        sum_used(regions.push(region)) == sum_used(regions) + region.used(),
{
    assert(regions.push(region).drop_last() =~= regions);
}

/// A region that is replaced replaces its frames in the sums.
pub proof fn lemma_sums_update(regions: Seq<RegionView>, i: int, region: RegionView)
    requires
        0 <= i < regions.len(),
    ensures
        sum_frames(regions.update(i, region)) + regions[i].frames.len() == sum_frames(regions)
            + region.frames.len(),
        sum_used(regions.update(i, region)) + regions[i].used() == sum_used(regions)
            + region.used(),
        regions[i].used() <= sum_used(regions),
        regions[i].frames.len() <= sum_frames(regions),
    decreases regions.len(),
{
    let g = regions.update(i, region);
    if i == regions.len() - 1 {
        assert(g.drop_last() =~= regions.drop_last());
    } else {
        assert(g.drop_last() =~= regions.drop_last().update(i, region));
        lemma_sums_update(regions.drop_last(), i, region);
    }
}

/// Serving a request takes its frames from the free frames of the pool.
pub proof fn lemma_after_fit_used(pool: PoolView, count: int, align: int)
    requires
        pool.has_fit(count, align),
        count >= 1,
    ensures
        pool.is_first_region(pool.first_region(count, align), count, align),
        pool.after_fit(count, align).used() == pool.used() + count,
        pool.after_fit(count, align).total() == pool.total(),
        0 <= pool.after_fit(count, align).free_frames() == pool.free_frames() - count,
{
    lemma_first_region(pool, count, align);
    let ri = pool.first_region(count, align);
    let region = pool.regions[ri];
    let idx = region.first_fit(count, align);
    assert(region.is_first_fit(idx, count, align));
    lemma_after_alloc_used(region, idx, count);
    lemma_sums_update(pool.regions, ri, region.after_alloc(idx, count));
    lemma_sums_bound(pool.after_fit(count, align).regions);
}

/// Where some region can serve a request, one region is the first to.
pub proof fn lemma_first_region(pool: PoolView, count: int, align: int)
    requires
        pool.has_fit(count, align),
    ensures
        pool.is_first_region(pool.first_region(count, align), count, align),
{
    let some = choose|ri: int| #[trigger] pool.serves(ri, count, align);
    lemma_first_region_below(pool, count, align, some);
}

/// Among the regions up to one that can serve a request, one is the first
/// to.
proof fn lemma_first_region_below(pool: PoolView, count: int, align: int, ri: int)
    requires
        pool.serves(ri, count, align),
    ensures
        exists|rj: int| pool.is_first_region(rj, count, align),
    decreases ri,
{
    if exists|rk: int| 0 <= rk < ri && #[trigger] pool.serves(rk, count, align) {
        let rk = choose|rk: int| 0 <= rk < ri && #[trigger] pool.serves(rk, count, align);
        lemma_first_region_below(pool, count, align, rk);
    } else {
        assert(pool.is_first_region(ri, count, align));
    }
}

/// Serving a request leaves the pool well-formed, and the frames that were
/// given are live at the address of the fit.
pub proof fn lemma_after_fit(pool: PoolView, count: int, align: int)
    requires
        pool.wf(),
        pool.has_fit(count, align),
        1 <= count <= usize::MAX,
    ensures
        pool.after_fit(count, align).wf(),
        pool.after_fit(count, align).is_live(pool.fit_addr(count, align), count),
        pool.after_fit(count, align).after_return(pool.fit_addr(count, align), count) == pool,
        pool.fit_addr(count, align) % align == 0,
        0 <= pool.fit_addr(count, align) <= usize::MAX,
{
    lemma_after_fit_used(pool, count, align);
    let ri = pool.first_region(count, align);
    let region = pool.regions[ri];
    let idx = region.first_fit(count, align);
    let addr = pool.fit_addr(count, align);
    let after = pool.after_fit(count, align);
    assert(region.is_first_fit(idx, count, align));
    assert(region.wf());
    lemma_after_alloc_wf(region, idx, count);
    lemma_region_round_trip(region, idx, count);
    assert forall|i: int| 0 <= i < after.regions.len() implies (#[trigger] after.regions[i]).wf()
        && after.regions[i].frames.len() > 0 by {
        if i != ri {
            assert(pool.regions[i].wf());
        }
    }
    assert forall|i: int, j: int|
        0 <= i < after.regions.len() && 0 <= j < after.regions.len() && i != j implies #[trigger] after.regions[i].disjoint(
    after.regions[j]) by {
        assert(pool.regions[i].disjoint(pool.regions[j]));
    }
    // the frames lie in region `ri` and in no other
    assert(idx * PAGE_SIZE + count * PAGE_SIZE <= region.frames.len() * PAGE_SIZE)
        by (nonlinear_arith)
        requires
            idx + count <= region.frames.len(),
    ;
    assert(after.owns(ri, addr));
    let rj = after.owner(addr);
    assert(after.owns(rj, addr));
    if rj != ri {
        assert(after.regions[rj].disjoint(after.regions[ri]));
    }
    assert(after.regions[ri].index_of(addr) == idx);
    assert(after.after_return(addr, count).regions =~= pool.regions);
}

/// A return leaves the pool well-formed and sets as many frames free as the
/// allocation had.
pub proof fn lemma_after_return(pool: PoolView, addr: int, count: int)
    requires
        pool.wf(),
        pool.is_live(addr, count),
    ensures
        pool.after_return(addr, count).wf(),
        pool.after_return(addr, count).used() + count == pool.used(),
        pool.after_return(addr, count).total() == pool.total(),
{
    let ri = pool.owner(addr);
    assert(pool.owns(ri, addr));
    let region = pool.regions[ri];
    let idx = region.index_of(addr);
    let after = pool.after_return(addr, count);
    assert(region.wf());
    lemma_after_dealloc_wf(region, idx, count);
    lemma_sums_update(pool.regions, ri, region.after_dealloc(idx, count));
    assert forall|i: int| 0 <= i < after.regions.len() implies (#[trigger] after.regions[i]).wf()
        && after.regions[i].frames.len() > 0 by {
        if i != ri {
            assert(pool.regions[i].wf());
        }
    }
    assert forall|i: int, j: int|
        0 <= i < after.regions.len() && 0 <= j < after.regions.len() && i != j implies #[trigger] after.regions[i].disjoint(
    after.regions[j]) by {
        assert(pool.regions[i].disjoint(pool.regions[j]));
    }
}

/// Two live allocations of a well-formed pool share no frame.
pub proof fn lemma_pool_live_apart(pool: PoolView, a: int, n: int, b: int, m: int)
    requires
        pool.wf(),
        pool.is_live(a, n),
        pool.is_live(b, m),
        a != b,
    ensures
        a + n * PAGE_SIZE <= b || b + m * PAGE_SIZE <= a,
{
    let ra = pool.owner(a);
    let rb = pool.owner(b);
    assert(pool.owns(ra, a));
    assert(pool.owns(rb, b));
    let x = pool.regions[ra];
    let y = pool.regions[rb];
    assert(x.wf() && y.wf());
    let i = x.index_of(a);
    let j = y.index_of(b);
    assert(x.head_has_extent(i));
    assert(y.head_has_extent(j));
    assert(a == x.base + i * PAGE_SIZE);
    assert(b == y.base + j * PAGE_SIZE);
    assert(i * PAGE_SIZE + n * PAGE_SIZE <= x.frames.len() * PAGE_SIZE) by (nonlinear_arith)
        requires
            i + n <= x.frames.len(),
    ;
    assert(j * PAGE_SIZE + m * PAGE_SIZE <= y.frames.len() * PAGE_SIZE) by (nonlinear_arith)
        requires
            j + m <= y.frames.len(),
    ;
    if ra == rb {
        lemma_live_apart(x, i, n, j, m);
        if i + n <= j {
            assert(i * PAGE_SIZE + n * PAGE_SIZE <= j * PAGE_SIZE) by (nonlinear_arith)
                requires
                    i + n <= j,
            ;
        } else {
            assert(j * PAGE_SIZE + m * PAGE_SIZE <= i * PAGE_SIZE) by (nonlinear_arith)
                requires
                    j + m <= i,
            ;
        }
    } else {
        assert(x.disjoint(y));
    }
}

/// The page pool.
pub struct BitmapPageAllocator {
    regions: Vec<PageRegion>,
    total: usize,
    used: usize,
}

impl View for BitmapPageAllocator {
    type V = PoolView;

    closed spec fn view(&self) -> PoolView {
        PoolView { regions: Seq::new(self.regions@.len(), |i: int| self.regions@[i]@) }
    }
}

impl BitmapPageAllocator {
    /// The pool and each of its regions are well-formed, and the pool knows
    /// its sums.
    pub closed spec fn wf(&self) -> bool {
        &&& self@.wf()
        &&& forall|i: int| 0 <= i < self.regions@.len() ==> #[trigger] self.regions@[i].wf()
        &&& self.total == self@.total()
        &&& self.used == self@.used()
    }

    /// A well-formed pool has a well-formed view, and no more frames in use
    /// than it has.
    pub proof fn lemma_wf_view(&self)
        requires
            self.wf(),
        ensures
            self@.wf(),
            self@.used() <= self@.total() <= usize::MAX,
    {
        lemma_sums_bound(self@.regions);
    }

    /// A pool without any region.
    pub fn new() -> (r: Self)
        ensures
            r.wf(),
            r@ == PoolView::empty(),
    {
        let r = Self { regions: Vec::new(), total: 0, used: 0 };
        proof {
            assert(r@.regions =~= Seq::<RegionView>::empty());
        }
        r
    }

    /// Makes the pool manage the whole pages within `[start, start + size)`
    /// as its one region, all of them free. What the pool held before is
    /// forgotten.
    pub fn init(&mut self, start: usize, size: usize)
        requires
            start + size <= usize::MAX,
        ensures
            final(self).wf(),
            final(self)@ == PoolView::fresh(start as int, size as int),
            final(self)@.used() == 0,
    {
        self.regions = Vec::new();
        self.total = 0;
        self.used = 0;
        proof {
            assert(self@.regions =~= Seq::<RegionView>::empty());
        }
        let _ = self.add_memory(start, size);
        proof {
            let region = RegionView::fresh(start as int, size as int);
            if region.frames.len() > 0 {
                assert(self@.regions =~= seq![region]);
            }
        }
    }

    /// Registers the whole pages within `[start, start + size)` as a further
    /// region, all of them free.
    ///
    /// Fails with `InvalidParam` where the range leaves the address space or
    /// holds no whole page, and with `MemoryOverlap` where its pages share an
    /// address with a region of the pool; the pool then stays as it was.
    pub fn add_memory(&mut self, start: usize, size: usize) -> (r: AllocResult)
        requires
            old(self).wf(),
        ensures
            final(self).wf(),
            old(self)@.add_post(final(self)@, start, size, r),
    {
        if start.checked_add(size).is_none() {
            return Err(AllocError::InvalidParam);
        }
        let mut region = PageRegion::new();
        region.init(start, size);
        let pages = region.total_pages();
        if pages == 0 {
            return Err(AllocError::InvalidParam);
        }
        let lo = region.base();
        let hi = region.end();
        let n = self.regions.len();
        let mut i: usize = 0;
        while i < n
            invariant
                i <= n,
                n == self.regions@.len(),
                *self == *old(self),
                old(self).wf(),
                region.wf(),
                region@ == RegionView::fresh(start as int, size as int),
                lo == region@.base,
                hi == region@.end(),
                forall|m: int| 0 <= m < i ==> #[trigger] self@.regions[m].disjoint(region@),
            decreases n - i,
        {
            let other_lo = self.regions[i].base();
            let other_hi = self.regions[i].end();
            if !(other_hi <= lo || hi <= other_lo) {
                proof {
                    assert(!self@.regions[i as int].disjoint(region@));
                }
                return Err(AllocError::MemoryOverlap);
            }
            i = i + 1;
        }
        let total = match self.total.checked_add(pages) {
            Some(total) => total,
            None => {
                return Err(AllocError::InvalidParam);
            },
        };
        let ghost before = self@;
        let ghost fresh = region@;
        proof {
            lemma_sums_push(before.regions, fresh);
            region.lemma_wf_view();
        }
        self.regions.push(region);
        self.total = total;
        proof {
            let now = self@;
            assert(now.regions =~= before.regions.push(fresh));
            assert forall|k: int| 0 <= k < now.regions.len() implies (#[trigger] now.regions[k]).wf()
                && now.regions[k].frames.len() > 0 by {
                if k < before.regions.len() {
                    assert(before.regions[k].wf());
                }
            }
            assert forall|k: int, j: int|
                0 <= k < now.regions.len() && 0 <= j < now.regions.len() && k != j implies #[trigger] now.regions[k].disjoint(
            now.regions[j]) by {
                if k < before.regions.len() && j < before.regions.len() {
                    assert(before.regions[k].disjoint(before.regions[j]));
                } else if k < before.regions.len() {
                    assert(before.regions[k].disjoint(fresh));
                } else {
                    assert(before.regions[j].disjoint(fresh));
                }
            }
        }
        Ok(())
    }

    /// Allocates `count` contiguous frames whose address is a multiple of
    /// `align`: in the first region that has room for them, at the lowest
    /// place where they fit.
    ///
    /// Fails with `InvalidParam` where the request is malformed, and with
    /// `NoMemory` where no region has a run of free frames for it; a failed
    /// request leaves the pool as it was.
    pub fn alloc_pages(&mut self, count: usize, align: usize) -> (r: AllocResult<usize>)
        requires
            old(self).wf(),
        ensures
            final(self).wf(),
            old(self)@.alloc_post(final(self)@, count, align, r),
    {
        if count == 0 || !is_power_of_two(align) {
            return Err(AllocError::InvalidParam);
        }
        proof {
            lemma_pow2_positive(align as int);
        }
        if align % PAGE_SIZE != 0 {
            return Err(AllocError::InvalidParam);
        }
        let n = self.regions.len();
        let mut ri: usize = 0;
        while ri < n
            invariant
                ri <= n,
                n == self.regions@.len(),
                self.wf(),
                self@ == old(self)@,
                RegionView::valid_request(count as int, align as int),
                forall|rj: int| 0 <= rj < ri ==> !#[trigger] self@.serves(rj, count as int, align as int),
            decreases n - ri,
        {
            let ghost before = self@;
            let ghost was = self.regions@;
            match self.regions[ri].alloc_pages(count, align) {
                Ok(addr) => {
                    proof {
                        let now = self@;
                        let region = before.regions[ri as int];
                        let idx = region.first_fit(count as int, align as int);
                        assert(before.serves(ri as int, count as int, align as int));
                        assert(before.is_first_region(ri as int, count as int, align as int));
                        let c = before.first_region(count as int, align as int);
                        assert(before.is_first_region(c, count as int, align as int));
                        assert(c == ri);
                        assert(now.regions =~= before.after_fit(count as int, align as int).regions);
                        lemma_after_fit_used(before, count as int, align as int);
                        lemma_after_fit(before, count as int, align as int);
                        assert forall|i: int| 0 <= i < self.regions@.len() implies #[trigger] self.regions@[i].wf() by {
                            if i != ri {
                                assert(self.regions@[i] == was[i]);
                            }
                        }
                    }
                    self.used = self.used + count;
                    return Ok(addr);
                },
                Err(_) => {
                    proof {
                        assert(self@.regions =~= before.regions);
                        assert forall|i: int| 0 <= i < self.regions@.len() implies #[trigger] self.regions@[i].wf() by {
                            if i != ri {
                                assert(self.regions@[i] == was[i]);
                            }
                        }
                        assert(!self@.serves(ri as int, count as int, align as int));
                    }
                },
            }
            ri = ri + 1;
        }
        Err(AllocError::NoMemory)
    }

    /// Returns the allocation of `count` frames at `addr` to the region that
    /// holds it.
    ///
    /// Fails with `InvalidParam` where `addr` names no frame of the pool or
    /// `count` is zero, and with `NotAllocated` where no live allocation
    /// starts at `addr` with `count` frames; a failed request leaves the pool
    /// as it was.
    pub fn dealloc_pages(&mut self, addr: usize, count: usize) -> (r: AllocResult)
        requires
            old(self).wf(),
        ensures
            final(self).wf(),
            old(self)@.dealloc_post(final(self)@, addr, count, r),
    {
        let n = self.regions.len();
        let mut ri: usize = 0;
        while ri < n
            invariant
                ri <= n,
                n == self.regions@.len(),
                *self == *old(self),
                self.wf(),
                forall|rj: int| 0 <= rj < ri ==> !#[trigger] self@.owns(rj, addr as int),
            decreases n - ri,
        {
            let lo = self.regions[ri].base();
            let hi = self.regions[ri].end();
            if lo <= addr && addr < hi {
                let ghost before = self@;
                let ghost was = self.regions@;
                proof {
                    assert(before.owns(ri as int, addr as int));
                    let c = before.owner(addr as int);
                    assert(before.owns(c, addr as int));
                    if c != ri {
                        assert(before.regions[c].disjoint(before.regions[ri as int]));
                    }
                    assert(c == ri);
                    lemma_sums_update(before.regions, ri as int, before.regions[ri as int]);
                }
                let r = self.regions[ri].dealloc_pages(addr, count);
                proof {
                    assert forall|i: int| 0 <= i < self.regions@.len() implies #[trigger] self.regions@[i].wf() by {
                        if i != ri {
                            assert(self.regions@[i] == was[i]);
                        }
                    }
                }
                match r {
                    Ok(()) => {
                        proof {
                            assert(before.is_live(addr as int, count as int));
                            assert(self@.regions =~= before.after_return(
                                addr as int,
                                count as int,
                            ).regions);
                            lemma_after_return(before, addr as int, count as int);
                        }
                        self.used = self.used - count;
                    },
                    Err(_) => {
                        proof {
                            assert(self@.regions =~= before.regions);
                        }
                    },
                }
                return r;
            }
            ri = ri + 1;
        }
        proof {
            assert(!self@.has_owner(addr as int));
        }
        Err(AllocError::InvalidParam)
    }

    /// Frames that the pool manages.
    pub fn total_pages(&self) -> (r: usize)
        requires
            self.wf(),
        ensures
            r == self@.total(),
    {
        self.total
    }

    /// Frames that belong to a live allocation.
    pub fn used_pages(&self) -> (r: usize)
        requires
            self.wf(),
        ensures
            r == self@.used(),
    {
        self.used
    }

    /// Frames that are free.
    pub fn available_pages(&self) -> (r: usize)
        requires
            self.wf(),
        ensures
            r == self@.free_frames(),
    {
        proof {
            lemma_sums_bound(self@.regions);
        }
        self.total - self.used
    }
}

} // verus!
