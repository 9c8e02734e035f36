//! One region of the page pool: the page frames of one range of memory,
//! handed out in contiguous runs.
//!
//! Every frame is free, the head of a live allocation, or a further frame of
//! one. A request takes the lowest run of free frames that is long enough and
//! starts at a multiple of the alignment asked for.

use crate::config::{
    align_down, align_down_spec, align_up_spec, checked_align_up, is_power_of_two,
    lemma_align_down, lemma_align_up, PAGE_SIZE,
};
use crate::{AllocError, AllocResult};
use vstd::arithmetic::power2::is_pow2;
use vstd::prelude::*;

verus! {

/// State of one page frame.
#[derive(Debug, Clone, Copy, PartialEq, Eq, Structural)]
pub enum Frame {
    /// The frame belongs to no allocation.
    Free,
    /// First frame of a live allocation of so many frames.
    Head(usize),
    /// A frame of a live allocation that is not its first.
    Tail,
}

/// How many frames of `frames` belong to an allocation.
pub open spec fn count_used(frames: Seq<Frame>) -> nat
    decreases frames.len(),
{
    if frames.len() == 0 {
        0
    } else {
        count_used(frames.drop_last()) + if frames.last() == Frame::Free {
            0nat
        } else {
            1nat
        }
    }
}

/// A region as a mathematical value: the address of its first frame and the
/// state of each frame.
pub struct RegionView {
    pub base: int,
    pub frames: Seq<Frame>,
}

impl RegionView {
    /// Frame `i` heads an allocation of `n` frames that lie in the region, and
    /// the frames after it are marked as its own.
    pub open spec fn is_extent(self, i: int, n: int) -> bool {
        &&& n >= 1
        &&& i + n <= self.frames.len()
        &&& forall|j: int| i < j < i + n ==> #[trigger] self.frames[j] == Frame::Tail
    }

    /// The region lies in the address space at a page boundary, and every head
    /// frame has its extent.
    pub open spec fn wf(self) -> bool {
        &&& 0 <= self.base
        &&& self.base % (PAGE_SIZE as int) == 0
        &&& self.base + self.frames.len() * PAGE_SIZE <= usize::MAX
        &&& forall|i: int| 0 <= i < self.frames.len() ==> #[trigger] self.head_has_extent(i)
    }

    /// If frame `i` heads an allocation, it has its extent.
    pub open spec fn head_has_extent(self, i: int) -> bool {
        match self.frames[i] {
            Frame::Head(n) => self.is_extent(i, n as int),
            _ => true,
        }
    }

    /// Address of frame `idx`.
    pub open spec fn addr_of(self, idx: int) -> int {
        self.base + idx * PAGE_SIZE
    }

    /// One past the last address of the region.
    pub open spec fn end(self) -> int {
        self.base + self.frames.len() * PAGE_SIZE
    }

    /// The region holds address `addr`.
    pub open spec fn has(self, addr: int) -> bool {
        self.base <= addr < self.end()
    }

    /// The two regions share no address.
    pub open spec fn disjoint(self, other: RegionView) -> bool {
        self.end() <= other.base || other.end() <= self.base
    }

    /// Index of the frame that holds `addr`.
    pub open spec fn index_of(self, addr: int) -> int {
        (addr - self.base) / (PAGE_SIZE as int)
    }

    /// The `count` frames from `idx` on lie in the region and are free.
    pub open spec fn is_free_run(self, idx: int, count: int) -> bool {
        &&& 0 <= idx
        &&& idx + count <= self.frames.len()
        &&& forall|j: int| idx <= j < idx + count ==> #[trigger] self.frames[j] == Frame::Free
    }

    /// A request for `count` frames at a multiple of `align` can be served
    /// at frame `idx`.
    pub open spec fn fits(self, idx: int, count: int, align: int) -> bool {
        self.is_free_run(idx, count) && self.addr_of(idx) % align == 0
    }

    /// Whether a request is well-formed: at least one frame, and an
    /// alignment that is a power of two and a multiple of the page size.
    pub open spec fn valid_request(count: int, align: int) -> bool {
        count >= 1 && is_pow2(align) && align % (PAGE_SIZE as int) == 0
    }

    /// The lowest frame at which the request can be served.
    pub open spec fn is_first_fit(self, idx: int, count: int, align: int) -> bool {
        self.fits(idx, count, align) && forall|k: int|
            0 <= k < idx ==> !#[trigger] self.fits(k, count, align)
    }

    /// An allocation of `count` frames is live at frame `idx`.
    pub open spec fn is_live(self, idx: int, count: int) -> bool {
        0 <= idx < self.frames.len() && 1 <= count <= usize::MAX && self.frames[idx] == Frame::Head(
            count as usize,
        )
    }

    /// The region after `count` frames from `idx` on became one allocation.
    pub open spec fn after_alloc(self, idx: int, count: int) -> RegionView {
        RegionView {
            frames: Seq::new(
                self.frames.len(),
                |j: int|
                    if j == idx {
                        Frame::Head(count as usize)
                    } else if idx < j < idx + count {
                        Frame::Tail
                    } else {
                        self.frames[j]
                    },
            ),
            ..self
        }
    }

    /// The region after the `count` frames from `idx` on were set free.
    pub open spec fn after_dealloc(self, idx: int, count: int) -> RegionView {
        RegionView {
            frames: Seq::new(
                self.frames.len(),
                |j: int|
                    if idx <= j < idx + count {
                        Frame::Free
                    } else {
                        self.frames[j]
                    },
            ),
            ..self
        }
    }

    /// Frames that belong to an allocation.
    pub open spec fn used(self) -> nat {
        count_used(self.frames)
    }

    /// Whether a return names a frame of the region by its address and at
    /// least one frame.
    pub open spec fn valid_return(self, addr: int, count: int) -> bool {
        &&& count >= 1
        &&& addr >= self.base
        &&& (addr - self.base) % (PAGE_SIZE as int) == 0
        &&& self.index_of(addr) < self.frames.len()
    }

    /// The region that `init(start, size)` makes: the whole pages within
    /// `[start, start + size)`, all free.
    pub open spec fn fresh(start: int, size: int) -> RegionView {
        let base = align_up_spec(start, PAGE_SIZE as int);
        let end = align_down_spec(start + size, PAGE_SIZE as int);
        if end > base {
            RegionView {
                base,
                frames: Seq::new(((end - base) / (PAGE_SIZE as int)) as nat, |j: int| Frame::Free),
            }
        } else {
            RegionView { base: 0, frames: Seq::empty() }
        }
    }

    /// Frames that are free.
    pub open spec fn free_frames(self) -> int {
        self.frames.len() - self.used()
    }

    /// Whether the request can be served somewhere.
    pub open spec fn has_first_fit(self, count: int, align: int) -> bool {
        exists|idx: int| self.is_first_fit(idx, count, align)
    }

    /// The lowest frame at which the request can be served.
    pub open spec fn first_fit(self, count: int, align: int) -> int {
        choose|idx: int| self.is_first_fit(idx, count, align)
    }

    /// What an allocation returns and leaves: on success the address of the
    /// first fit and the region with the run marked; else the error and the
    /// region as it was.
    pub open spec fn alloc_post(
        self,
        after: RegionView,
        count: usize,
        align: usize,
        r: AllocResult<usize>,
    ) -> bool {
        match r {
            Ok(addr) => {
                let idx = self.first_fit(count as int, align as int);
                &&& RegionView::valid_request(count as int, align as int)
                &&& self.is_first_fit(idx, count as int, align as int)
                &&& idx == self.index_of(addr as int)
                &&& addr == self.addr_of(idx)
                &&& addr % align == 0
                &&& after == self.after_alloc(idx, count as int)
                &&& after.used() == self.used() + count
            },
            Err(e) => {
                &&& after == self
                &&& e == if RegionView::valid_request(count as int, align as int) {
                    AllocError::NoMemory
                } else {
                    AllocError::InvalidParam
                }
                &&& RegionView::valid_request(count as int, align as int) ==> !self.has_first_fit(
                    count as int,
                    align as int,
                ) && forall|k: int| !#[trigger] self.fits(k, count as int, align as int)
            },
        }
    }

    /// What a return of frames gives and leaves: on success the region with
    /// the frames free; else the error and the region as it was.
    pub open spec fn dealloc_post(
        self,
        after: RegionView,
        addr: usize,
        count: usize,
        r: AllocResult,
    ) -> bool {
        match r {
            Ok(()) => {
                let idx = self.index_of(addr as int);
                &&& self.valid_return(addr as int, count as int)
                &&& self.is_live(idx, count as int)
                &&& after == self.after_dealloc(idx, count as int)
                &&& after.used() + count == self.used()
            },
            Err(e) => {
                &&& after == self
                &&& e == if self.valid_return(addr as int, count as int) {
                    AllocError::NotAllocated
                } else {
                    AllocError::InvalidParam
                }
                &&& !(self.valid_return(addr as int, count as int) && self.is_live(
                    self.index_of(addr as int),
                    count as int,
                ))
            },
        }
    }
}

/// No more frames are in use than there are.
pub proof fn lemma_count_used_bound(frames: Seq<Frame>)
    ensures
        count_used(frames) <= frames.len(),
    decreases frames.len(),
{
    if frames.len() > 0 {
        lemma_count_used_bound(frames.drop_last());
    }
}

/// Changing one frame changes the count of used frames by that frame alone.
pub proof fn lemma_count_used_update(frames: Seq<Frame>, i: int, f: Frame)
    requires
        0 <= i < frames.len(),
    ensures
        count_used(frames.update(i, f)) + (if frames[i] == Frame::Free {
            0nat
        } else {
            1nat
        }) == count_used(frames) + (if f == Frame::Free {
            0nat
        } else {
            1nat
        }),
    decreases frames.len(),
{
    let g = frames.update(i, f);
    if i == frames.len() - 1 {
        assert(g.drop_last() =~= frames.drop_last());
    } else {
        assert(g.drop_last() =~= frames.drop_last().update(i, f));
        lemma_count_used_update(frames.drop_last(), i, f);
    }
}

/// One region of the page pool.
pub struct PageRegion {
    base: usize,
    frames: Vec<Frame>,
    used: usize,
}

impl View for PageRegion {
    type V = RegionView;

    closed spec fn view(&self) -> RegionView {
        RegionView { base: self.base as int, frames: self.frames@ }
    }
}

impl PageRegion {
    /// The region is well-formed and knows how many of its frames are in use.
    pub closed spec fn wf(&self) -> bool {
        self@.wf() && self.used == self@.used()
    }

    /// A well-formed region has a well-formed view.
    pub proof fn lemma_wf_view(&self)
        requires
            self.wf(),
        ensures
            self@.wf(),
            self@.used() <= self@.frames.len(),
    {
        lemma_count_used_bound(self.frames@);
    }

    /// A region without frames.
    pub fn new() -> (r: Self)
        ensures
            r.wf(),
            r@ == (RegionView { base: 0, frames: Seq::empty() }),
    {
        Self { base: 0, frames: Vec::new(), used: 0 }
    }

    /// Makes the region hold the whole pages within `[start, start + size)`,
    /// all of them free. What the region held before is forgotten.
    pub fn init(&mut self, start: usize, size: usize)
        requires
            start + size <= usize::MAX,
        ensures
            final(self).wf(),
            final(self)@ == RegionView::fresh(start as int, size as int),
            final(self)@.used() == 0,
    {
        proof {
            lemma_align_up(start as int, PAGE_SIZE as int);
            lemma_align_down(start + size, PAGE_SIZE as int);
        }
        self.frames = Vec::new();
        self.used = 0;
        self.base = 0;
        let end = align_down(start + size, PAGE_SIZE);
        let base = match checked_align_up(start, PAGE_SIZE) {
            Some(base) => base,
            None => {
                return ;
            },
        };
        if end <= base {
            return ;
        }
        let n: usize = (end - base) / PAGE_SIZE;
        self.base = base;
        let mut i: usize = 0;
        while i < n
            invariant
                i <= n,
                self.base == base,
                self.used == 0,
                self.frames@.len() == i,
                forall|j: int| 0 <= j < i ==> #[trigger] self.frames@[j] == Frame::Free,
                count_used(self.frames@) == 0,
            decreases n - i,
        {
            let ghost before = self.frames@;
            self.frames.push(Frame::Free);
            proof {
                assert(self.frames@.drop_last() =~= before);
            }
            i = i + 1;
        }
        proof {
            assert(self.frames@ =~= RegionView::fresh(start as int, size as int).frames);
            assert(self.base + n * PAGE_SIZE <= end);
        }
    }

    /// Allocates `count` contiguous frames whose address is a multiple of
    /// `align`, at the lowest place where they fit.
    ///
    /// Fails with `InvalidParam` where the request is malformed, and with
    /// `NoMemory` where no run of free frames fits it; a failed request
    /// leaves the region as it was.
    #[verifier::rlimit(50)]
    pub fn alloc_pages(&mut self, count: usize, align: usize) -> (r: AllocResult<usize>)
        requires
            old(self).wf(),
        ensures
            final(self).wf(),
            old(self)@.alloc_post(final(self)@, count, align, r),
    {
        if count == 0 || !is_power_of_two(align) {
            return Err(AllocError::InvalidParam);
        }
        proof {
            crate::config::lemma_pow2_positive(align as int);
        }
        if align % PAGE_SIZE != 0 {
            return Err(AllocError::InvalidParam);
        }
        let n = self.frames.len();
        if count > n {
            return Err(AllocError::NoMemory);
        }
        let mut idx: usize = 0;
        while idx <= n - count
            invariant
                self.wf(),
                *self == *old(self),
                n == self.frames@.len(),
                1 <= count <= n,
                align > 0,
                RegionView::valid_request(count as int, align as int),
                idx <= n - count + 1,
                forall|k: int| 0 <= k < idx ==> !#[trigger] self@.fits(k, count as int, align as int),
            decreases n - idx,
        {
            let addr: usize = self.base + idx * PAGE_SIZE;
            if addr % align == 0 && self.run_is_free(idx, count) {
                proof {
                    assert(self@.index_of(addr as int) == idx);
                    assert(self@.is_first_fit(idx as int, count as int, align as int));
                    let c = self@.first_fit(count as int, align as int);
                    assert(self@.is_first_fit(c, count as int, align as int));
                    if c < idx {
                        assert(!self@.fits(c, count as int, align as int));
                    }
                    assert(c == idx);
                }
                self.mark_run(idx, count);
                return Ok(addr);
            }
            idx = idx + 1;
        }
        Err(AllocError::NoMemory)
    }

    /// Whether the `count` frames from `idx` on are free.
    fn run_is_free(&self, idx: usize, count: usize) -> (r: bool)
        requires
            idx + count <= self.frames@.len(),
        ensures
            r == self@.is_free_run(idx as int, count as int),
    {
        let n = self.frames.len();
        let mut j: usize = 0;
        while j < count
            invariant
                j <= count,
                idx + count <= n,
                n == self.frames@.len(),
                forall|k: int| idx <= k < idx + j ==> #[trigger] self.frames@[k] == Frame::Free,
            decreases count - j,
        {
            match self.frames[idx + j] {
                Frame::Free => {},
                _ => {
                    return false;
                },
            }
            j = j + 1;
        }
        true
    }

    /// Makes the `count` free frames from `idx` on one allocation.
    #[verifier::rlimit(50)]
    fn mark_run(&mut self, idx: usize, count: usize)
        requires
            old(self).wf(),
            count >= 1,
            old(self)@.is_free_run(idx as int, count as int),
        ensures
            final(self).wf(),
            final(self)@ == old(self)@.after_alloc(idx as int, count as int),
            final(self)@.used() == old(self)@.used() + count,
    {
        let ghost before = self.frames@;
        proof {
            lemma_count_used_update(before, idx as int, Frame::Head(count));
        }
        let n = self.frames.len();
        self.frames.set(idx, Frame::Head(count));
        let mut j: usize = 1;
        while j < count
            invariant
                1 <= j <= count,
                idx + count <= n,
                n == before.len(),
                self.base == old(self).base,
                self.used == old(self).used,
                self.frames@.len() == before.len(),
                forall|k: int|
                    0 <= k < before.len() ==> #[trigger] self.frames@[k] == if k == idx {
                        Frame::Head(count)
                    } else if idx < k < idx + j {
                        Frame::Tail
                    } else {
                        before[k]
                    },
                old(self)@.is_free_run(idx as int, count as int),
                before == old(self).frames@,
                count_used(self.frames@) == count_used(before) + j,
            decreases count - j,
        {
            proof {
                lemma_count_used_update(self.frames@, idx + j, Frame::Tail);
            }
            self.frames.set(idx + j, Frame::Tail);
            j = j + 1;
        }
        proof {
            lemma_count_used_bound(self.frames@);
            assert(self.frames@ =~= old(self)@.after_alloc(idx as int, count as int).frames);
        }
        self.used = self.used + count;
        proof {
            let now = self@;
            assert forall|i: int| 0 <= i < now.frames.len() implies #[trigger] now.head_has_extent(
                i,
            ) by {
                if i != idx {
                    assert(now.frames[i] == before[i] || now.frames[i] == Frame::Tail);
                    assert(old(self)@.head_has_extent(i));
                    if let Frame::Head(n) = now.frames[i] {
                        assert forall|j: int| i < j < i + n implies #[trigger] now.frames[j]
                            == Frame::Tail by {
                            assert(before[j] == Frame::Tail);
                        }
                    }
                }
            }
        }
    }

    /// Returns the allocation of `count` frames at `addr` to the region.
    ///
    /// Fails with `InvalidParam` where `addr` names no frame of the region or
    /// `count` is zero, and with `NotAllocated` where no live allocation
    /// starts at `addr` with `count` frames; a failed request leaves the region
    /// as it was.
    #[verifier::rlimit(50)]
    pub fn dealloc_pages(&mut self, addr: usize, count: usize) -> (r: AllocResult)
        requires
            old(self).wf(),
        ensures
            final(self).wf(),
            old(self)@.dealloc_post(final(self)@, addr, count, r),
    {
        if count == 0 || addr < self.base || (addr - self.base) % PAGE_SIZE != 0 {
            return Err(AllocError::InvalidParam);
        }
        let idx: usize = (addr - self.base) / PAGE_SIZE;
        if idx >= self.frames.len() {
            return Err(AllocError::InvalidParam);
        }
        match self.frames[idx] {
            Frame::Head(n) => {
                if n != count {
                    return Err(AllocError::NotAllocated);
                }
            },
            _ => {
                return Err(AllocError::NotAllocated);
            },
        }
        let ghost before = self.frames@;
        assert(old(self)@.head_has_extent(idx as int));
        let n = self.frames.len();
        let mut j: usize = 0;
        while j < count
            invariant
                j <= count,
                idx + count <= n,
                n == before.len(),
                self.base == old(self).base,
                self.used == old(self).used,
                self.frames@.len() == before.len(),
                forall|k: int|
                    0 <= k < before.len() ==> #[trigger] self.frames@[k] == if idx <= k < idx + j {
                        Frame::Free
                    } else {
                        before[k]
                    },
                old(self)@.is_extent(idx as int, count as int),
                before[idx as int] == Frame::Head(count),
                before == old(self).frames@,
                count_used(self.frames@) + j == count_used(before),
            decreases count - j,
        {
            proof {
                lemma_count_used_update(self.frames@, idx + j, Frame::Free);
                assert(self.frames@[idx + j] == before[idx + j]);
                if j > 0 {
                    assert(before[idx + j] == Frame::Tail);
                }
            }
            self.frames.set(idx + j, Frame::Free);
            j = j + 1;
        }
        proof {
            assert(self.frames@ =~= old(self)@.after_dealloc(idx as int, count as int).frames);
        }
        self.used = self.used - count;
        proof {
            let now = self@;
            assert forall|i: int| 0 <= i < now.frames.len() implies #[trigger] now.head_has_extent(
                i,
            ) by {
                assert(old(self)@.head_has_extent(i));
                if let Frame::Head(n) = now.frames[i] {
                    assert(before[i] == Frame::Head(n));
                    assert(!(idx <= i < idx + count));
                    assert forall|j: int| i < j < i + n implies #[trigger] now.frames[j]
                        == Frame::Tail by {
                        assert(before[j] == Frame::Tail);
                        if idx <= j < idx + count {
                            // frame `idx` would lie within the extent of `i`
                            assert(before[idx as int] == Frame::Tail);
                        }
                    }
                }
            }
        }
        Ok(())
    }

    /// Address of the first frame.
    pub fn base(&self) -> (r: usize)
        ensures
            r == self@.base,
    {
        self.base
    }

    /// One past the last address of the region.
    pub fn end(&self) -> (r: usize)
        requires
            self.wf(),
        ensures
            r == self@.end(),
    {
        self.base + self.frames.len() * PAGE_SIZE
    }

    /// Frames that the region manages.
    pub fn total_pages(&self) -> (r: usize)
        ensures
            r == self@.frames.len(),
    {
        self.frames.len()
    }

    /// Frames that belong to a live allocation.
    pub fn used_pages(&self) -> (r: usize)
        requires
            self.wf(),
        ensures
            r == self@.used(),
    {
        self.used
    }

    /// Frames that are free.
    pub fn available_pages(&self) -> (r: usize)
        requires
            self.wf(),
        ensures
            r == self@.frames.len() - self@.used(),
    {
        proof {
            lemma_count_used_bound(self.frames@);
        }
        self.frames.len() - self.used
    }
}

/// Frames that go from free to used raise the count of used frames by their
/// number.
pub proof fn lemma_count_used_fill(before: Seq<Frame>, after: Seq<Frame>, a: int, b: int)
    requires
        before.len() == after.len(),
        0 <= a <= b <= before.len(),
        forall|j: int| a <= j < b ==> before[j] == Frame::Free && #[trigger] after[j] != Frame::Free,
        forall|j: int| 0 <= j < before.len() && !(a <= j < b) ==> before[j] == #[trigger] after[j],
    ensures
        count_used(after) == count_used(before) + (b - a),
    decreases before.len(),
{
    if before.len() > 0 {
        let n = before.len() - 1;
        if a < b && b == n + 1 {
            assert(after[n] != Frame::Free);
            lemma_count_used_fill(before.drop_last(), after.drop_last(), a, b - 1);
        } else {
            let a1 = if a <= n {
                a
            } else {
                n
            };
            let b1 = if b <= n {
                b
            } else {
                n
            };
            assert(before[n] == after[n]);
            lemma_count_used_fill(before.drop_last(), after.drop_last(), a1, b1);
        }
    }
}

/// An allocation takes as many frames from the free ones as it has.
pub proof fn lemma_after_alloc_used(region: RegionView, idx: int, count: int)
    requires
        region.is_free_run(idx, count),
        count >= 1,
    ensures
        region.after_alloc(idx, count).used() == region.used() + count,
        region.after_alloc(idx, count).free_frames() == region.free_frames() - count,
        region.after_alloc(idx, count).free_frames() >= 0,
{
    let after = region.after_alloc(idx, count);
    lemma_count_used_fill(region.frames, after.frames, idx, idx + count);
    lemma_count_used_bound(after.frames);
}

/// Two live allocations of a well-formed region share no frame.
pub proof fn lemma_live_apart(region: RegionView, i: int, n: int, j: int, m: int)
    requires
        region.wf(),
        region.is_live(i, n),
        region.is_live(j, m),
        i != j,
    ensures
        i + n <= j || j + m <= i,
{
    assert(region.head_has_extent(i));
    assert(region.head_has_extent(j));
    if i < j && j < i + n {
        assert(region.frames[j] == Frame::Tail);
    }
    if j < i && i < j + m {
        assert(region.frames[i] == Frame::Tail);
    }
}

/// An allocation leaves every live allocation live and apart from the new
/// one, which is live as well.
pub proof fn lemma_alloc_keeps_live(region: RegionView, idx: int, count: int, i: int, n: int)
    requires
        region.wf(),
        region.is_free_run(idx, count),
        1 <= count <= usize::MAX,
        region.is_live(i, n),
    ensures
        region.after_alloc(idx, count).is_live(i, n),
        region.after_alloc(idx, count).is_live(idx, count),
        i + n <= idx || idx + count <= i,
{
    assert(region.head_has_extent(i));
    assert(region.frames[idx] == Frame::Free);
    if i < idx && idx < i + n {
        assert(region.frames[idx] == Frame::Tail);
    }
    if idx <= i && i < idx + count {
        assert(region.frames[i] == Frame::Free);
    }
}

/// An allocation leaves the region well-formed.
pub proof fn lemma_after_alloc_wf(region: RegionView, idx: int, count: int)
    requires
        region.wf(),
        region.is_free_run(idx, count),
        1 <= count <= usize::MAX,
    ensures
        region.after_alloc(idx, count).wf(),
{
    let now = region.after_alloc(idx, count);
    assert forall|i: int| 0 <= i < now.frames.len() implies #[trigger] now.head_has_extent(i) by {
        if i != idx {
            assert(region.head_has_extent(i));
            if let Frame::Head(n) = now.frames[i] {
                assert(region.frames[i] == Frame::Head(n));
                assert forall|j: int| i < j < i + n implies #[trigger] now.frames[j]
                    == Frame::Tail by {
                    assert(region.frames[j] == Frame::Tail);
                }
            }
        }
    }
}

/// A return leaves the region well-formed and sets as many frames free as the
/// allocation had.
pub proof fn lemma_after_dealloc_wf(region: RegionView, idx: int, count: int)
    requires
        region.wf(),
        region.is_live(idx, count),
    ensures
        region.after_dealloc(idx, count).wf(),
        region.after_dealloc(idx, count).used() + count == region.used(),
{
    let now = region.after_dealloc(idx, count);
    assert(region.head_has_extent(idx));
    assert forall|j: int| idx <= j < idx + count implies now.frames[j] == Frame::Free
        && #[trigger] region.frames[j] != Frame::Free by {
        if j > idx {
            assert(region.frames[j] == Frame::Tail);
        }
    }
    lemma_count_used_fill(now.frames, region.frames, idx, idx + count);
    assert forall|i: int| 0 <= i < now.frames.len() implies #[trigger] now.head_has_extent(i) by {
        assert(region.head_has_extent(i));
        if let Frame::Head(n) = now.frames[i] {
            assert(region.frames[i] == Frame::Head(n));
            assert(!(idx <= i < idx + count));
            assert forall|j: int| i < j < i + n implies #[trigger] now.frames[j]
                == Frame::Tail by {
                assert(region.frames[j] == Frame::Tail);
                if idx <= j < idx + count {
                    assert(region.frames[idx] == Frame::Tail);
                }
            }
        }
    }
}

/// Frames that are allocated and returned at once leave the region as it was.
pub proof fn lemma_region_round_trip(region: RegionView, idx: int, count: int)
    requires
        region.is_free_run(idx, count),
        1 <= count <= usize::MAX,
    ensures
        region.after_alloc(idx, count).is_live(idx, count),
        region.after_alloc(idx, count).after_dealloc(idx, count) == region,
{
    let back = region.after_alloc(idx, count).after_dealloc(idx, count);
    assert(back.frames =~= region.frames);
}

} // verus!
