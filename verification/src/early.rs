//! The bump region: the allocator of early boot.
//!
//! One contiguous range serves byte requests from its low end upward and page
//! requests from its high end downward. Bytes are reclaimed only in bulk, when
//! the last outstanding byte allocation is returned; pages are never reclaimed.

use crate::config::{
    align_down, align_down_spec, align_up_spec, checked_align_up, is_power_of_two,
    lemma_align_down, lemma_align_up, PAGE_SIZE,
};
use crate::{AllocError, AllocResult};
use vstd::arithmetic::power2::is_pow2;
use vstd::prelude::*;

verus! {

/// The bump region as mathematical integers.
pub struct BumpView {
    /// First address of the region.
    pub start: int,
    /// One past the last address of the region.
    pub end: int,
    /// Number of byte allocations that are outstanding.
    pub count: int,
    /// Cursor of the byte allocations, growing upward from `start`.
    pub byte_pos: int,
    /// Cursor of the page allocations, growing downward from `end`.
    pub page_pos: int,
}

impl BumpView {
    /// The cursors are ordered and within the region, and a region without
    /// outstanding byte allocations has its byte cursor at the start.
    pub open spec fn wf(self) -> bool {
        &&& 0 <= self.start <= self.byte_pos <= self.page_pos <= self.end <= usize::MAX
        &&& 0 <= self.count <= usize::MAX
        &&& self.count == 0 ==> self.byte_pos == self.start
    }

    /// The region before `init`.
    pub open spec fn zeroed() -> BumpView {
        BumpView { start: 0, end: 0, count: 0, byte_pos: 0, page_pos: 0 }
    }

    /// The region after `init(start, size)`: both cursors at their ends, the
    /// count of outstanding allocations kept.
    pub open spec fn init(self, start: int, size: int) -> BumpView {
        BumpView { start, end: start + size, count: self.count, byte_pos: start, page_pos: start + size }
    }

    /// Address that the next byte allocation with this alignment would get.
    pub open spec fn bytes_candidate(self, align: int) -> int {
        align_up_spec(self.byte_pos, align)
    }

    /// Whether a byte allocation of `size` bytes fits below the page cursor
    /// and can still be counted.
    pub open spec fn bytes_fit(self, size: int, align: int) -> bool {
        self.bytes_candidate(align) + size <= self.page_pos && self.count < usize::MAX
    }

    /// The region after a byte allocation that fits.
    pub open spec fn after_alloc_bytes(self, size: int, align: int) -> BumpView {
        BumpView { byte_pos: self.bytes_candidate(align) + size, count: self.count + 1, ..self }
    }

    /// The region after one byte allocation was returned: the byte cursor
    /// goes back to the start when it was the last one.
    pub open spec fn after_dealloc_bytes(self) -> BumpView {
        BumpView {
            count: self.count - 1,
            byte_pos: if self.count == 1 {
                self.start
            } else {
                self.byte_pos
            },
            ..self
        }
    }

    /// Address that the next page allocation of `size` bytes would get.
    pub open spec fn pages_candidate(self, size: int, align: int) -> int {
        align_down_spec(self.page_pos - size, align)
    }

    /// Whether a page allocation of `size` bytes stays strictly above the
    /// byte cursor.
    pub open spec fn pages_fit(self, size: int, align: int) -> bool {
        self.pages_candidate(size, align) > self.byte_pos
    }

    /// The region after a page allocation that fits.
    pub open spec fn after_alloc_pages(self, size: int, align: int) -> BumpView {
        BumpView { page_pos: self.pages_candidate(size, align), ..self }
    }
    /// What a byte allocation returns and leaves: on success the candidate
    /// address and the region with its byte cursor advanced; else the error
    /// and the region as it was.
    pub open spec fn alloc_bytes_post(
        self,
        after: BumpView,
        size: usize,
        align: usize,
        r: AllocResult<usize>,
    ) -> bool {
        match r {
            Ok(addr) => {
                &&& is_pow2(align as int)
                &&& self.bytes_fit(size as int, align as int)
                &&& addr == self.bytes_candidate(align as int)
                &&& addr % align == 0
                &&& after == self.after_alloc_bytes(size as int, align as int)
            },
            Err(e) => {
                &&& after == self
                &&& e == if is_pow2(align as int) {
                    AllocError::NoMemory
                } else {
                    AllocError::InvalidParam
                }
                &&& is_pow2(align as int) ==> !self.bytes_fit(size as int, align as int)
            },
        }
    }

    /// What a page allocation returns and leaves: on success the candidate
    /// address and the region with its page cursor lowered; else the error
    /// and the region as it was.
    pub open spec fn alloc_pages_post(
        self,
        after: BumpView,
        size: usize,
        align: usize,
        r: AllocResult<usize>,
    ) -> bool {
        match r {
            Ok(addr) => {
                &&& is_pow2(align as int)
                &&& self.pages_fit(size as int, align as int)
                &&& addr == self.pages_candidate(size as int, align as int)
                &&& addr % align == 0
                &&& after == self.after_alloc_pages(size as int, align as int)
            },
            Err(e) => {
                &&& after == self
                &&& e == if is_pow2(align as int) {
                    AllocError::NoMemory
                } else {
                    AllocError::InvalidParam
                }
                &&& is_pow2(align as int) ==> !self.pages_fit(size as int, align as int)
            },
        }
    }
}

/// The bump region.
pub struct EarlyAllocator {
    start: usize,
    end: usize,
    count: usize,
    byte_pos: usize,
    page_pos: usize,
}

impl View for EarlyAllocator {
    type V = BumpView;

    closed spec fn view(&self) -> BumpView {
        BumpView {
            start: self.start as int,
            end: self.end as int,
            count: self.count as int,
            byte_pos: self.byte_pos as int,
            page_pos: self.page_pos as int,
        }
    }
}

impl Default for EarlyAllocator {
    /// A region that covers nothing yet.
    fn default() -> (r: Self)
        ensures
            r@ == BumpView::zeroed(),
            r@.wf(),
    {
        Self::uninit_new()
    }
}

impl EarlyAllocator {
    /// A region that covers nothing yet; `init` gives it its range.
    pub fn uninit_new() -> (r: Self)
        ensures
            r@ == BumpView::zeroed(),
            r@.wf(),
    {
        Self { start: 0, end: 0, count: 0, byte_pos: 0, page_pos: 0 }
    }

    /// Gives the region the range `[start, start + size)` and puts both
    /// cursors at its ends.
    pub fn init(&mut self, start: usize, size: usize)
        requires
            start + size <= usize::MAX,
        ensures
            final(self)@ == old(self)@.init(start as int, size as int),
            final(self)@.wf(),
    {
        self.start = start;
        self.end = start + size;
        self.byte_pos = start;
        self.page_pos = self.end;
    }

    /// Allocates `size` bytes at the next multiple of `align` above the byte
    /// cursor.
    ///
    /// Fails with `InvalidParam` where `align` is no power of two, and with
    /// `NoMemory` where the allocation would pass the page cursor or the
    /// count of outstanding allocations is at the limit of the machine word;
    /// a failed request leaves the region as it was.
    pub fn alloc_bytes(&mut self, size: usize, align: usize) -> (r: AllocResult<usize>)
        requires
            old(self)@.wf(),
        ensures
            final(self)@.wf(),
            old(self)@.alloc_bytes_post(final(self)@, size, align, r),
    {
        if !is_power_of_two(align) {
            return Err(AllocError::InvalidParam);
        }
        proof {
            crate::config::lemma_pow2_positive(align as int);
            lemma_align_up(self.byte_pos as int, align as int);
        }
        if self.count == usize::MAX {
            return Err(AllocError::NoMemory);
        }
        let start = match checked_align_up(self.byte_pos, align) {
            Some(start) => start,
            None => {
                return Err(AllocError::NoMemory);
            },
        };
        let next = match start.checked_add(size) {
            Some(next) => next,
            None => {
                return Err(AllocError::NoMemory);
            },
        };
        if next > self.page_pos {
            Err(AllocError::NoMemory)
        } else {
            self.byte_pos = next;
            self.count = self.count + 1;
            Ok(start)
        }
    }

    /// Returns one byte allocation. The region only counts: when the last
    /// outstanding allocation is returned, all bytes are reclaimed at once.
    pub fn dealloc_bytes(&mut self, addr: usize, size: usize)
        requires
            old(self)@.wf(),
            old(self)@.count > 0,
        ensures
            final(self)@ == old(self)@.after_dealloc_bytes(),
            final(self)@.wf(),
    {
        let _ = addr;
        let _ = size;
        self.count = self.count - 1;
        if self.count == 0 {
            self.byte_pos = self.start;
        }
    }

    /// Allocates `size` bytes of whole pages at the greatest multiple of
    /// `align` that leaves room for them below the page cursor.
    ///
    /// Fails with `InvalidParam` where `align` is no power of two, and with
    /// `NoMemory` where the pages would not stay strictly above the byte
    /// cursor; a failed request leaves the region as it was.
    pub fn alloc_pages(&mut self, size: usize, align: usize) -> (r: AllocResult<usize>)
        requires
            old(self)@.wf(),
            size % PAGE_SIZE == 0,
        ensures
            final(self)@.wf(),
            old(self)@.alloc_pages_post(final(self)@, size, align, r),
    {
        if !is_power_of_two(align) {
            return Err(AllocError::InvalidParam);
        }
        proof {
            crate::config::lemma_pow2_positive(align as int);
            lemma_align_down(self.page_pos - size, align as int);
        }
        if size > self.page_pos {
            return Err(AllocError::NoMemory);
        }
        let next = align_down(self.page_pos - size, align);
        if next <= self.byte_pos {
            Err(AllocError::NoMemory)
        } else {
            self.page_pos = next;
            Ok(next)
        }
    }

    /// Number of byte allocations that are outstanding.
    pub fn outstanding(&self) -> (r: usize)
        ensures
            r == self@.count,
    {
        self.count
    }

    /// Whole pages that the region spans.
    pub fn total_pages(&self) -> (r: usize)
        requires
            self@.wf(),
        ensures
            r == (self@.end - self@.start) / (PAGE_SIZE as int),
    {
        (self.end - self.start) / PAGE_SIZE
    }

    /// Whole pages between the page cursor and the end of the region.
    pub fn used_pages(&self) -> (r: usize)
        requires
            self@.wf(),
        ensures
            r == (self@.end - self@.page_pos) / (PAGE_SIZE as int),
    {
        (self.end - self.page_pos) / PAGE_SIZE
    }

    /// Whole pages between the two cursors.
    pub fn available_pages(&self) -> (r: usize)
        requires
            self@.wf(),
        ensures
            r == (self@.page_pos - self@.byte_pos) / (PAGE_SIZE as int),
    {
        (self.page_pos - self.byte_pos) / PAGE_SIZE
    }

    /// Bytes that the region spans.
    pub fn total_bytes(&self) -> (r: usize)
        requires
            self@.wf(),
        ensures
            r == self@.end - self@.start,
    {
        self.end - self.start
    }

    /// Bytes between the start of the region and the byte cursor.
    pub fn used_bytes(&self) -> (r: usize)
        requires
            self@.wf(),
        ensures
            r == self@.byte_pos - self@.start,
    {
        self.byte_pos - self.start
    }

    /// Bytes between the two cursors.
    pub fn available_bytes(&self) -> (r: usize)
        requires
            self@.wf(),
        ensures
            r == self@.page_pos - self@.byte_pos,
    {
        self.page_pos - self.byte_pos
    }
}

/// One request to the bump region, as it enters a history of requests.
pub enum BumpOp {
    /// A byte allocation of `size` bytes at a multiple of `align`.
    AllocBytes { size: nat, align: int },
    /// The return of the byte allocation that was given `addr` for `size` bytes.
    DeallocBytes { addr: int, size: nat },
    /// A page allocation of `size` bytes at a multiple of `align`.
    AllocPages { size: nat, align: int },
}

/// A bump region together with the byte allocations that are outstanding,
/// each as its address and size, oldest first.
pub struct BumpHistory {
    pub region: BumpView,
    pub live: Seq<(int, nat)>,
}

impl BumpHistory {
    /// The outstanding allocations are as many as the region counts, lie
    /// between the start of the region and the byte cursor, and follow one
    /// another in memory without overlap.
    pub open spec fn inv(self) -> bool {
        &&& self.region.wf()
        &&& self.live.len() == self.region.count
        &&& forall|i: int|
            0 <= i < self.live.len() ==> self.region.start <= (#[trigger] self.live[i]).0
                && self.live[i].0 + self.live[i].1 <= self.region.byte_pos
        &&& forall|i: int, j: int|
            0 <= i < j < self.live.len() ==> (#[trigger] self.live[i]).0 + self.live[i].1 <= (
            #[trigger] self.live[j]).0
    }

    /// Whether `op` can be asked of this history: a return names an
    /// allocation that is outstanding.
    pub open spec fn admits(self, op: BumpOp) -> bool {
        match op {
            BumpOp::DeallocBytes { addr, size } => self.live.contains((addr, size)),
            _ => true,
        }
    }

    /// The history after `op`. A request that the region turns down changes
    /// nothing.
    pub open spec fn step(self, op: BumpOp) -> BumpHistory {
        match op {
            BumpOp::AllocBytes { size, align } => if is_pow2(align) && self.region.bytes_fit(
                size as int,
                align,
            ) {
                BumpHistory {
                    region: self.region.after_alloc_bytes(size as int, align),
                    live: self.live.push((self.region.bytes_candidate(align), size)),
                }
            } else {
                self
            },
            BumpOp::DeallocBytes { addr, size } => BumpHistory {
                region: self.region.after_dealloc_bytes(),
                live: self.live.remove(self.live.index_of((addr, size))),
            },
            BumpOp::AllocPages { size, align } => if is_pow2(align) && self.region.pages_fit(
                size as int,
                align,
            ) {
                BumpHistory { region: self.region.after_alloc_pages(size as int, align), ..self }
            } else {
                self
            },
        }
    }

    /// The history after all of `ops`, first to last.
    pub open spec fn run(self, ops: Seq<BumpOp>) -> BumpHistory
        decreases ops.len(),
    {
        if ops.len() == 0 {
            self
        } else {
            self.run(ops.drop_last()).step(ops.last())
        }
    }

    /// Whether each of `ops` can be asked in its turn.
    pub open spec fn admits_all(self, ops: Seq<BumpOp>) -> bool
        decreases ops.len(),
    {
        ops.len() == 0 || (self.admits_all(ops.drop_last()) && self.run(ops.drop_last()).admits(
            ops.last(),
        ))
    }

    /// How many of the byte allocations among `ops` the region grants.
    pub open spec fn granted(self, ops: Seq<BumpOp>) -> nat
        decreases ops.len(),
    {
        if ops.len() == 0 {
            0
        } else {
            let before = self.run(ops.drop_last());
            let now: nat = match ops.last() {
                BumpOp::AllocBytes { size, align } => if is_pow2(align) && before.region.bytes_fit(
                    size as int,
                    align,
                ) {
                    1
                } else {
                    0
                },
                _ => 0,
            };
            self.granted(ops.drop_last()) + now
        }
    }

    /// How many returns of byte allocations are among `ops`.
    pub open spec fn returned(ops: Seq<BumpOp>) -> nat
        decreases ops.len(),
    {
        if ops.len() == 0 {
            0
        } else {
            let now: nat = match ops.last() {
                BumpOp::DeallocBytes { .. } => 1,
                _ => 0,
            };
            Self::returned(ops.drop_last()) + now
        }
    }
}

/// One request keeps the history well-formed: the cursors do not cross, and
/// a byte allocation that is granted lies above every outstanding one.
pub proof fn lemma_bump_step(h: BumpHistory, op: BumpOp)
    requires
        h.inv(),
        h.admits(op),
    ensures
        h.step(op).inv(),
        h.step(op).region.byte_pos <= h.step(op).region.page_pos,
{
    let n = h.step(op);
    match op {
        BumpOp::AllocBytes { size, align } => {
            if is_pow2(align) && h.region.bytes_fit(size as int, align) {
                crate::config::lemma_pow2_positive(align);
                lemma_align_up(h.region.byte_pos, align);
                assert forall|i: int| 0 <= i < n.live.len() implies n.region.start <= (
                #[trigger] n.live[i]).0 && n.live[i].0 + n.live[i].1 <= n.region.byte_pos by {
                    if i < h.live.len() {
                        assert(n.live[i] == h.live[i]);
                    }
                }
                assert forall|i: int, j: int| 0 <= i < j < n.live.len() implies (
                #[trigger] n.live[i]).0 + n.live[i].1 <= (#[trigger] n.live[j]).0 by {
                    assert(n.live[i] == h.live[i]);
                    if j < h.live.len() {
                        assert(n.live[j] == h.live[j]);
                    }
                }
            }
        },
        BumpOp::DeallocBytes { addr, size } => {
            let k = h.live.index_of((addr, size));
            assert(0 <= k < h.live.len() && h.live[k] == (addr, size));
            assert forall|i: int| 0 <= i < n.live.len() implies n.region.start <= (
            #[trigger] n.live[i]).0 && n.live[i].0 + n.live[i].1 <= n.region.byte_pos by {
                if i < k {
                    assert(n.live[i] == h.live[i]);
                } else {
                    assert(n.live[i] == h.live[i + 1]);
                }
            }
            assert forall|i: int, j: int| 0 <= i < j < n.live.len() implies (
            #[trigger] n.live[i]).0 + n.live[i].1 <= (#[trigger] n.live[j]).0 by {
                let i0 = if i < k {
                    i
                } else {
                    i + 1
                };
                let j0 = if j < k {
                    j
                } else {
                    j + 1
                };
                assert(n.live[i] == h.live[i0]);
                assert(n.live[j] == h.live[j0]);
            }
        },
        BumpOp::AllocPages { size, align } => {
            if is_pow2(align) && h.region.pages_fit(size as int, align) {
                crate::config::lemma_pow2_positive(align);
                lemma_align_down(h.region.page_pos - size, align);
            }
        },
    }
}

/// However byte and page requests are interleaved, the cursors never cross,
/// the byte allocations that are outstanding never overlap, and the region
/// counts them: it holds as many as were granted and not yet returned.
pub proof fn lemma_bump_run(h: BumpHistory, ops: Seq<BumpOp>)
    requires
        h.inv(),
        h.admits_all(ops),
    ensures
        h.run(ops).inv(),
        h.run(ops).region.byte_pos <= h.run(ops).region.page_pos,
        h.run(ops).region.count == h.region.count + h.granted(ops) - BumpHistory::returned(ops),
        forall|i: int, j: int|
            0 <= i < h.run(ops).live.len() && 0 <= j < h.run(ops).live.len() && i != j ==> {
                let a = #[trigger] h.run(ops).live[i];
                let b = #[trigger] h.run(ops).live[j];
                a.0 + a.1 <= b.0 || b.0 + b.1 <= a.0
            },
    decreases ops.len(),
{
    if ops.len() > 0 {
        lemma_bump_run(h, ops.drop_last());
        lemma_bump_step(h.run(ops.drop_last()), ops.last());
    }
    let r = h.run(ops);
    assert forall|i: int, j: int|
        0 <= i < r.live.len() && 0 <= j < r.live.len() && i != j implies {
        let a = #[trigger] r.live[i];
        let b = #[trigger] r.live[j];
        a.0 + a.1 <= b.0 || b.0 + b.1 <= a.0
    } by {
        if i < j {
            assert(r.live[i].0 + r.live[i].1 <= r.live[j].0);
        } else {
            assert(r.live[j].0 + r.live[j].1 <= r.live[i].0);
        }
    }
}

/// Bulk reclamation: once as many byte allocations were returned as were
/// granted, in whatever order, none is outstanding and the byte cursor is
/// back at the start of the region.
pub proof fn lemma_bump_reclaims_all(region: BumpView, ops: Seq<BumpOp>)
    requires
        region.wf(),
        region.count == 0,
        (BumpHistory { region, live: Seq::empty() }).admits_all(ops),
        (BumpHistory { region, live: Seq::empty() }).granted(ops) == BumpHistory::returned(ops),
    ensures
        (BumpHistory { region, live: Seq::empty() }).run(ops).region.count == 0,
        (BumpHistory { region, live: Seq::empty() }).run(ops).region.byte_pos == region.start,
{
    let h = BumpHistory { region, live: Seq::empty() };
    lemma_bump_run(h, ops);
    lemma_bump_keeps_range(h, ops);
}

/// Requests move the cursors only: the range of the region stays.
pub proof fn lemma_bump_keeps_range(h: BumpHistory, ops: Seq<BumpOp>)
    ensures
        h.run(ops).region.start == h.region.start,
        h.run(ops).region.end == h.region.end,
    decreases ops.len(),
{
    if ops.len() > 0 {
        lemma_bump_keeps_range(h, ops.drop_last());
    }
}

} // verus!
