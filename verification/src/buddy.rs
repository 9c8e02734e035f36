//! The byte heap: a buddy allocator over arenas of whole pages.
//!
//! Every arena is cut into aligned blocks whose sizes are powers of two. A
//! request takes the smallest free block that is large enough and cuts it in
//! halves until it fits; a block that is returned is joined with its buddy as
//! long as the buddy is free.

use crate::block::{
    blocks_ok, lemma_aligned_to_smaller, lemma_concat_ok, lemma_cut_down, lemma_merge,
    lemma_mod_double, lemma_new_arena, lemma_push_arena, lemma_push_block, lemma_retag,
    lemma_same_addr, lemma_split, lemma_sum_arenas_push, lemma_sum_bounds, lemma_sum_concat,
    lemma_sum_push, lemma_sum_update, split_rest, sum_arenas, sum_sizes, sum_taken, Arena, Block,
    MIN_BLOCK_SIZE,
};
use crate::config::{
    checked_next_power_of_two, is_power_of_two, lemma_next_pow2, lemma_page_size_pow2,
    lemma_pow2_divides, lemma_pow2_double, lemma_pow2_gap, lemma_pow2_positive, next_pow2,
    PAGE_SIZE,
};
use crate::{AllocError, AllocResult};
use vstd::arithmetic::power2::is_pow2;
use vstd::prelude::*;

verus! {

/// Size of the largest block that starts at `cur`, is aligned to its size
/// and has at most `rem` bytes, found by doubling from `sz`.
pub open spec fn block_at(cur: int, rem: int, sz: int) -> int
    decreases rem - sz,
{
    if sz > 0 && 2 * sz <= rem && cur % (2 * sz) == 0 {
        block_at(cur, rem, 2 * sz)
    } else {
        sz
    }
}

/// The free blocks into which the pages from `cur` to `end` are cut: at each
/// address the largest aligned block that still fits.
pub open spec fn arena_blocks(cur: int, end: int) -> Seq<Block>
    decreases end - cur,
{
    let sz = block_at(cur, end - cur, PAGE_SIZE as int);
    if cur < 0 || end - cur < PAGE_SIZE || sz <= 0 || sz > end - cur {
        Seq::empty()
    } else {
        seq![Block { addr: cur as usize, size: sz as usize, taken: None }] + arena_blocks(
            cur + sz,
            end,
        )
    }
}

/// Whether some block is the free buddy of block `k`.
pub open spec fn has_buddy(blocks: Seq<Block>, k: int) -> bool {
    exists|j: int| 0 <= j < blocks.len() && #[trigger] blocks[j].is_buddy_of(blocks[k])
}

/// Index of the free buddy of block `k`.
pub open spec fn buddy_index(blocks: Seq<Block>, k: int) -> int {
    choose|j: int| 0 <= j < blocks.len() && #[trigger] blocks[j].is_buddy_of(blocks[k])
}

/// The blocks after the free block `k` was joined with its buddy as often as
/// a free buddy was there.
pub open spec fn coalesce(blocks: Seq<Block>, k: int) -> Seq<Block>
    decreases blocks.len(),
{
    if 0 <= k < blocks.len() && has_buddy(blocks, k) {
        let j = buddy_index(blocks, k);
        coalesce(
            blocks.update(k, blocks[k].parent()).remove(j),
            if j < k {
                k - 1
            } else {
                k
            },
        )
    } else {
        blocks
    }
}

/// The byte heap as a mathematical value: its blocks, free and held, and the
/// arenas that were registered.
pub struct HeapView {
    pub blocks: Seq<Block>,
    pub arenas: Seq<Arena>,
}

impl HeapView {
    /// The heap without any arena.
    pub open spec fn empty() -> HeapView {
        HeapView { blocks: Seq::empty(), arenas: Seq::empty() }
    }

    /// The blocks are in order, the arenas are valid and apart from one
    /// another, and the blocks hold exactly the bytes of the arenas.
    pub open spec fn wf(self) -> bool {
        &&& blocks_ok(self.blocks, self.arenas)
        &&& forall|i: int| 0 <= i < self.arenas.len() ==> #[trigger] self.arenas[i].valid()
        &&& forall|i: int, j: int|
            0 <= i < self.arenas.len() && 0 <= j < self.arenas.len() && i != j
                ==> #[trigger] self.arenas[i].disjoint(self.arenas[j])
        &&& sum_sizes(self.blocks) == sum_arenas(self.arenas)
        &&& sum_arenas(self.arenas) <= usize::MAX
    }

    /// Bytes in all the arenas.
    pub open spec fn total(self) -> int {
        sum_arenas(self.arenas)
    }

    /// Bytes in the blocks that allocations hold.
    pub open spec fn used(self) -> int {
        sum_taken(self.blocks)
    }

    /// Size of the block that a request for `size` bytes at a multiple of
    /// `align` is given: the least power of two that holds the request, the
    /// alignment and the smallest block.
    pub open spec fn block_size(size: int, align: int) -> int {
        let p = next_pow2(size);
        let m = if p >= align {
            p
        } else {
            align
        };
        if m >= MIN_BLOCK_SIZE {
            m
        } else {
            MIN_BLOCK_SIZE as int
        }
    }

    /// Block `i` is free and has `need` bytes or more.
    pub open spec fn serves(self, i: int, need: int) -> bool {
        0 <= i < self.blocks.len() && self.blocks[i].is_free() && self.blocks[i].size >= need
    }

    /// Some free block has `need` bytes or more.
    pub open spec fn has_fit(self, need: int) -> bool {
        exists|i: int| #[trigger] self.serves(i, need)
    }

    /// Block `i` is the smallest free block with `need` bytes or more, and
    /// the first of that size.
    pub open spec fn is_best_fit(self, i: int, need: int) -> bool {
        &&& self.serves(i, need)
        &&& forall|j: int| #[trigger]
            self.serves(j, need) ==> self.blocks[i].size < self.blocks[j].size || (
            self.blocks[i].size == self.blocks[j].size && i <= j)
    }

    /// Index of the best fit for `need` bytes.
    pub open spec fn best_fit(self, need: int) -> int {
        choose|i: int| self.is_best_fit(i, need)
    }

    /// The heap after block `i` was cut down to `need` bytes and handed to an
    /// allocation that asked for `size` bytes.
    pub open spec fn after_alloc(self, i: int, size: usize, need: int) -> HeapView {
        HeapView {
            blocks: self.blocks.update(
                i,
                Block { addr: self.blocks[i].addr, size: need as usize, taken: Some(size) },
            ) + split_rest(self.blocks[i].addr as int, need, self.blocks[i].size as int),
            ..self
        }
    }

    /// Block `k` starts at `addr` and is held by an allocation that asked for
    /// `size` bytes.
    pub open spec fn holds(self, k: int, addr: usize, size: usize) -> bool {
        0 <= k < self.blocks.len() && self.blocks[k].addr == addr && self.blocks[k].taken == Some(
            size,
        )
    }

    /// An allocation of `size` bytes at `addr` is live.
    pub open spec fn is_live(self, addr: usize, size: usize) -> bool {
        exists|k: int| #[trigger] self.holds(k, addr, size)
    }

    /// Index of the block that the live allocation at `addr` holds.
    pub open spec fn live_index(self, addr: usize, size: usize) -> int {
        choose|k: int| #[trigger] self.holds(k, addr, size)
    }

    /// The heap after the allocation that held block `k` returned it.
    pub open spec fn after_dealloc(self, k: int) -> HeapView {
        HeapView {
            blocks: coalesce(self.blocks.update(k, self.blocks[k].released()), k),
            ..self
        }
    }

    /// Whether `a` can be registered: it is valid, apart from every arena of
    /// the heap, and the total still fits the machine word.
    pub open spec fn admits_arena(self, a: Arena) -> bool {
        &&& a.valid()
        &&& forall|i: int| 0 <= i < self.arenas.len() ==> #[trigger] self.arenas[i].disjoint(a)
        &&& self.total() + a.size <= usize::MAX
    }

    /// The heap after arena `a` was registered and cut into free blocks.
    pub open spec fn after_add(self, a: Arena) -> HeapView {
        HeapView {
            blocks: self.blocks + arena_blocks(a.start as int, a.start + a.size),
            arenas: self.arenas.push(a),
        }
    }
    /// What an allocation returns and leaves: on success the address of the
    /// best fit and the heap with that block cut down and held; else the
    /// error and the heap as it was.
    pub open spec fn alloc_post(
        self,
        after: HeapView,
        size: usize,
        align: usize,
        r: AllocResult<usize>,
    ) -> bool {
        match r {
            Ok(addr) => {
                let need = HeapView::block_size(size as int, align as int);
                let i = self.best_fit(need);
                &&& is_pow2(align as int)
                &&& self.has_fit(need)
                &&& self.is_best_fit(i, need)
                &&& addr == self.blocks[i].addr
                &&& addr % align == 0
                &&& after == self.after_alloc(i, size, need)
                &&& after.used() == self.used() + need
                &&& after.total() == self.total()
            },
            Err(e) => {
                &&& after == self
                &&& e == if is_pow2(align as int) {
                    AllocError::NoMemory
                } else {
                    AllocError::InvalidParam
                }
                &&& is_pow2(align as int) ==> !self.has_fit(
                    HeapView::block_size(size as int, align as int),
                )
            },
        }
    }

    /// What a return gives and leaves: on success the heap with the block
    /// free and joined with its buddies; else the error and the heap as it
    /// was.
    pub open spec fn dealloc_post(
        self,
        after: HeapView,
        addr: usize,
        size: usize,
        r: AllocResult,
    ) -> bool {
        match r {
            Ok(()) => {
                let k = self.live_index(addr, size);
                &&& self.is_live(addr, size)
                &&& self.holds(k, addr, size)
                &&& after == self.after_dealloc(k)
                &&& after.used() == self.used() - self.blocks[k].size
                &&& after.total() == self.total()
            },
            Err(e) => {
                &&& after == self
                &&& e == AllocError::NotAllocated
                &&& !self.is_live(addr, size)
            },
        }
    }

    /// What registering arena `a` gives and leaves: on success the heap with
    /// the arena cut into free blocks; else the error and the heap as it was.
    pub open spec fn add_post(self, after: HeapView, a: Arena, r: AllocResult) -> bool {
        match r {
            Ok(()) => {
                &&& self.admits_arena(a)
                &&& after == self.after_add(a)
                &&& after.total() == self.total() + a.size
                &&& after.used() == self.used()
            },
            Err(e) => {
                &&& after == self
                &&& e == AllocError::InvalidParam
                &&& !self.admits_arena(a)
            },
        }
    }
}

/// The size of the block for a request is a power of two that holds the
/// request, the alignment and the smallest block.
pub proof fn lemma_block_size(size: int, align: int)
    requires
        is_pow2(align),
    ensures
        is_pow2(HeapView::block_size(size, align)),
        HeapView::block_size(size, align) >= size,
        HeapView::block_size(size, align) >= align,
        HeapView::block_size(size, align) >= MIN_BLOCK_SIZE,
{
    lemma_next_pow2(size);
    assert(is_pow2(MIN_BLOCK_SIZE as int)) by {
        reveal_with_fuel(is_pow2, 5);
    }
}

/// Cutting the next block off an arena that is being registered keeps the
/// blocks in order: the block lies behind all that were cut before and
/// within the arena, which is the last of the arenas.
#[verifier::rlimit(50)]
proof fn lemma_carve_step(
    before: Seq<Block>,
    arenas: Seq<Arena>,
    first: Seq<Block>,
    was: Seq<Block>,
    start: int,
    cur: int,
    end: int,
    sz: int,
)
    requires
        blocks_ok(before, arenas),
        arenas.len() > 0,
        arenas.last().start == start,
        arenas.last().start + arenas.last().size == end,
        before == first + was,
        was + arena_blocks(cur, end) == arena_blocks(start, end),
        0 <= start <= cur < end <= usize::MAX,
        is_pow2(sz),
        PAGE_SIZE <= sz <= end - cur,
        cur % sz == 0,
        sz == block_at(cur, end - cur, PAGE_SIZE as int),
        forall|m: int|
            0 <= m < before.len() ==> (#[trigger] before[m]).addr + before[m].size <= cur || end
                <= before[m].addr,
    ensures
        ({
            let block = Block { addr: cur as usize, size: sz as usize, taken: None };
            let now = before.push(block);
            &&& blocks_ok(now, arenas)
            &&& now == first + was.push(block)
            &&& was.push(block) + arena_blocks(cur + sz, end) == arena_blocks(start, end)
            &&& forall|m: int|
                0 <= m < now.len() ==> (#[trigger] now[m]).addr + now[m].size <= cur + sz || end
                    <= now[m].addr
            &&& sum_sizes(now) == sum_sizes(before) + sz
            &&& sum_taken(now) == sum_taken(before)
        }),
{
    let block = Block { addr: cur as usize, size: sz as usize, taken: None };
    let now = before.push(block);
    assert(block.valid());
    assert forall|m: int| 0 <= m < before.len() implies #[trigger] before[m].disjoint(block) by {}
    lemma_push_block(before, arenas, block, arenas.len() - 1);
    lemma_sum_push(before, block);
    assert(now =~= first + was.push(block));
    assert(arena_blocks(cur, end) =~= seq![block] + arena_blocks(cur + sz, end));
    assert(was.push(block) + arena_blocks(cur + sz, end) =~= was + arena_blocks(cur, end));
    assert forall|m: int| 0 <= m < now.len() implies (#[trigger] now[m]).addr + now[m].size <= cur
        + sz || end <= now[m].addr by {
        if m < before.len() {
            assert(now[m] == before[m]);
        }
    }
}

/// Doubling from an aligned power of two ends at an aligned power of two
/// that still fits.
pub proof fn lemma_block_at(cur: int, rem: int, sz: int)
    requires
        cur >= 0,
        is_pow2(sz),
        0 < sz <= rem,
        cur % sz == 0,
    ensures
        is_pow2(block_at(cur, rem, sz)),
        sz <= block_at(cur, rem, sz) <= rem,
        cur % block_at(cur, rem, sz) == 0,
    decreases rem - sz,
{
    if 2 * sz <= rem && cur % (2 * sz) == 0 {
        lemma_pow2_double(sz);
        lemma_block_at(cur, rem, 2 * sz);
    }
}

/// The blocks into which whole pages are cut are valid and free, lie within
/// the pages one behind the other, and hold all their bytes.
#[verifier::rlimit(50)]
pub proof fn lemma_arena_blocks(cur: int, end: int)
    requires
        0 <= cur <= end <= usize::MAX,
        cur % (PAGE_SIZE as int) == 0,
        end % (PAGE_SIZE as int) == 0,
    ensures
        forall|m: int|
            0 <= m < arena_blocks(cur, end).len() ==> {
                let b = #[trigger] arena_blocks(cur, end)[m];
                b.valid() && b.is_free() && cur <= b.addr && b.addr + b.size <= end
            },
        forall|m: int, q: int|
            0 <= m < q < arena_blocks(cur, end).len() ==> (#[trigger] arena_blocks(
                cur,
                end,
            )[m]).addr + arena_blocks(cur, end)[m].size <= (#[trigger] arena_blocks(
                cur,
                end,
            )[q]).addr,
        sum_sizes(arena_blocks(cur, end)) == end - cur,
        sum_taken(arena_blocks(cur, end)) == 0,
    decreases end - cur,
{
    let all = arena_blocks(cur, end);
    if cur < end {
        lemma_page_size_pow2();
        lemma_block_at(cur, end - cur, PAGE_SIZE as int);
        let sz = block_at(cur, end - cur, PAGE_SIZE as int);
        lemma_pow2_divides(sz, PAGE_SIZE as int);
        let b = Block { addr: cur as usize, size: sz as usize, taken: None };
        let rest = arena_blocks(cur + sz, end);
        lemma_arena_blocks(cur + sz, end);
        assert(all =~= seq![b] + rest);
        assert(b.valid());
        lemma_sum_concat(seq![b], rest);
        lemma_sum_push(Seq::<Block>::empty(), b);
        assert(seq![b] =~= Seq::<Block>::empty().push(b));
        assert forall|m: int| 0 <= m < all.len() implies {
            let c = #[trigger] all[m];
            c.valid() && c.is_free() && cur <= c.addr && c.addr + c.size <= end
        } by {
            if m > 0 {
                assert(all[m] == rest[m - 1]);
            }
        }
        assert forall|m: int, q: int| 0 <= m < q < all.len() implies (#[trigger] all[m]).addr
            + all[m].size <= (#[trigger] all[q]).addr by {
            assert(all[q] == rest[q - 1]);
            if m > 0 {
                assert(all[m] == rest[m - 1]);
            }
        }
    } else {
        assert(all =~= Seq::<Block>::empty());
    }
}

/// An allocation leaves the heap well-formed: its block is aligned as asked,
/// apart from every other block, and counted; what was live stays live.
#[verifier::rlimit(50)]
pub proof fn lemma_after_alloc(v: HeapView, i: int, size: usize, align: usize)
    requires
        v.wf(),
        is_pow2(align as int),
        v.is_best_fit(i, HeapView::block_size(size as int, align as int)),
    ensures
        ({
            let need = HeapView::block_size(size as int, align as int);
            let w = v.after_alloc(i, size, need);
            &&& w.wf()
            &&& w.used() == v.used() + need
            &&& w.total() == v.total()
            &&& w.holds(i, v.blocks[i].addr, size)
            &&& w.blocks[i].size == need
            &&& v.blocks[i].addr % align == 0
            &&& forall|k: int, a: usize, z: usize| #[trigger]
                v.holds(k, a, z) ==> w.holds(k, a, z)
        }),
{
    let need = HeapView::block_size(size as int, align as int);
    let w = v.after_alloc(i, size, need);
    let b = v.blocks[i];
    lemma_block_size(size as int, align as int);
    assert(b.valid());
    lemma_aligned_to_smaller(b.addr as int, b.size as int, align as int);
    lemma_cut_down(v.blocks, v.arenas, i, need);
    let cut = v.blocks.update(i, Block { addr: b.addr, size: need as usize, taken: None })
        + split_rest(b.addr as int, need, b.size as int);
    assert(cut[i] == Block { addr: b.addr, size: need as usize, taken: None });
    lemma_retag(cut, v.arenas, i, Some(size));
    lemma_sum_update(cut, i, Block { taken: Some(size), ..cut[i] });
    assert(w.blocks =~= cut.update(i, Block { taken: Some(size), ..cut[i] }));
}

/// Joining a free block with its buddies leaves the blocks in order and
/// their sums as they were.
pub proof fn lemma_coalesce(blocks: Seq<Block>, arenas: Seq<Arena>, k: int)
    requires
        blocks_ok(blocks, arenas),
        0 <= k < blocks.len(),
        blocks[k].is_free(),
    ensures
        blocks_ok(coalesce(blocks, k), arenas),
        sum_sizes(coalesce(blocks, k)) == sum_sizes(blocks),
        sum_taken(coalesce(blocks, k)) == sum_taken(blocks),
    decreases blocks.len(),
{
    if has_buddy(blocks, k) {
        let j = buddy_index(blocks, k);
        lemma_merge(blocks, arenas, k, j);
        let next = blocks.update(k, blocks[k].parent()).remove(j);
        let k2 = if j < k {
            k - 1
        } else {
            k
        };
        assert(next[k2] == blocks[k].parent());
        lemma_coalesce(next, arenas, k2);
    }
}

/// A return leaves the heap well-formed and takes the block out of the
/// count.
pub proof fn lemma_after_dealloc(v: HeapView, k: int)
    requires
        v.wf(),
        0 <= k < v.blocks.len(),
        !v.blocks[k].is_free(),
    ensures
        v.after_dealloc(k).wf(),
        v.after_dealloc(k).used() == v.used() - v.blocks[k].size,
        v.after_dealloc(k).total() == v.total(),
{
    lemma_retag(v.blocks, v.arenas, k, None);
    lemma_sum_update(v.blocks, k, Block { taken: None, ..v.blocks[k] });
    let freed = v.blocks.update(k, v.blocks[k].released());
    assert(freed =~= v.blocks.update(k, Block { taken: None, ..v.blocks[k] }));
    lemma_coalesce(freed, v.arenas, k);
}

/// Registering an arena that the heap admits leaves the heap well-formed,
/// adds the size of the arena to the total, and keeps every block where it
/// was.
#[verifier::rlimit(50)]
pub proof fn lemma_after_add(v: HeapView, a: Arena)
    requires
        v.wf(),
        v.admits_arena(a),
    ensures
        v.after_add(a).wf(),
        v.after_add(a).total() == v.total() + a.size,
        v.after_add(a).used() == v.used(),
        forall|k: int, addr: usize, z: usize| #[trigger]
            v.holds(k, addr, z) ==> v.after_add(a).holds(k, addr, z),
{
    let w = v.after_add(a);
    let more = arena_blocks(a.start as int, a.start + a.size);
    lemma_arena_blocks(a.start as int, a.start + a.size);
    lemma_new_arena(v.blocks, v.arenas, a);
    lemma_push_arena(v.arenas, a);
    lemma_sum_arenas_push(v.arenas, a);
    lemma_sum_concat(v.blocks, more);
    assert forall|m: int, q: int|
        0 <= m < more.len() && 0 <= q < more.len() && m != q implies #[trigger] more[m].disjoint(
        more[q],
    ) by {
        if m < q {
            assert(more[m].addr + more[m].size <= more[q].addr);
        } else {
            assert(more[q].addr + more[q].size <= more[m].addr);
        }
    }
    assert forall|i: int, m: int|
        0 <= i < v.blocks.len() && 0 <= m < more.len() implies #[trigger] v.blocks[i].disjoint(
        more[m],
    ) by {
        let c = more[m];
        assert(c.valid() && a.start <= c.addr && c.addr + c.size <= a.start + a.size);
        let o = v.blocks[i];
        assert(o.addr + o.size <= a.start || a.start + a.size <= o.addr);
    }
    assert forall|m: int| 0 <= m < more.len() implies (#[trigger] more[m]).valid() && w.arenas[v.arenas.len() as int].start
        <= more[m].addr && more[m].addr + more[m].size <= w.arenas[v.arenas.len() as int].start
        + w.arenas[v.arenas.len() as int].size by {
        let c = more[m];
        assert(c.valid() && a.start <= c.addr && c.addr + c.size <= a.start + a.size);
    }
    lemma_concat_ok(v.blocks, more, w.arenas, v.arenas.len() as int);
}

/// What is allocated and returned at once leaves the heap with the bytes in
/// use and the total that it had.
pub proof fn lemma_round_trip(
    v: HeapView,
    w: HeapView,
    u: HeapView,
    size: usize,
    align: usize,
    addr: usize,
    r: AllocResult,
)
    requires
        v.wf(),
        v.alloc_post(w, size, align, Ok(addr)),
        w.dealloc_post(u, addr, size, r),
    ensures
        r is Ok,
        u.wf(),
        u.used() == v.used(),
        u.total() == v.total(),
{
    let need = HeapView::block_size(size as int, align as int);
    let i = v.best_fit(need);
    lemma_after_alloc(v, i, size, align);
    assert(w.holds(i, addr, size));
    assert(w.is_live(addr, size));
    let k = w.live_index(addr, size);
    assert(w.holds(k, addr, size));
    lemma_same_addr(w.blocks, w.arenas, k, i);
    lemma_after_dealloc(w, k);
}

/// The byte heap.
pub struct BuddyByteAllocator {
    blocks: Vec<Block>,
    arenas: Vec<Arena>,
    total: usize,
    used: usize,
}

impl View for BuddyByteAllocator {
    type V = HeapView;

    closed spec fn view(&self) -> HeapView {
        HeapView { blocks: self.blocks@, arenas: self.arenas@ }
    }
}

impl BuddyByteAllocator {
    /// The heap is well-formed and knows its sums.
    pub closed spec fn wf(&self) -> bool {
        &&& self@.wf()
        &&& self.total == self@.total()
        &&& self.used == self@.used()
    }

    /// A well-formed heap has a well-formed view, and its allocations hold
    /// no more than its arenas have.
    pub proof fn lemma_wf_view(&self)
        requires
            self.wf(),
        ensures
            self@.wf(),
            0 <= self@.used() <= self@.total() <= usize::MAX,
    {
        lemma_sum_bounds(self.blocks@);
    }

    /// A heap without any arena.
    pub fn new() -> (r: Self)
        ensures
            r.wf(),
            r@ == HeapView::empty(),
    {
        Self { blocks: Vec::new(), arenas: Vec::new(), total: 0, used: 0 }
    }

    /// Bytes in all the arenas.
    pub fn total_bytes(&self) -> (r: usize)
        requires
            self.wf(),
        ensures
            r == self@.total(),
    {
        self.total
    }

    /// Bytes in the blocks that allocations hold.
    pub fn used_bytes(&self) -> (r: usize)
        requires
            self.wf(),
        ensures
            r == self@.used(),
    {
        self.used
    }

    /// Bytes in the free blocks.
    pub fn available_bytes(&self) -> (r: usize)
        requires
            self.wf(),
        ensures
            r == self@.total() - self@.used(),
    {
        proof {
            lemma_sum_bounds(self.blocks@);
        }
        self.total - self.used
    }

    /// Index of the best fit for `need` bytes, if a free block is that large.
    fn find_best(&self, need: usize) -> (r: Option<usize>)
        ensures
            match r {
                Some(i) => self@.is_best_fit(i as int, need as int) && self@.best_fit(need as int)
                    == i,
                None => !self@.has_fit(need as int),
            },
    {
        let n = self.blocks.len();
        let mut best: Option<usize> = None;
        let mut i: usize = 0;
        while i < n
            invariant
                i <= n,
                n == self.blocks@.len(),
                match best {
                    Some(b) => {
                        &&& b < i
                        &&& self@.serves(b as int, need as int)
                        &&& forall|j: int|
                            0 <= j < i && #[trigger] self@.serves(j, need as int)
                                ==> self.blocks@[b as int].size < self.blocks@[j].size || (
                            self.blocks@[b as int].size == self.blocks@[j].size && b <= j)
                    },
                    None => forall|j: int| 0 <= j < i ==> !#[trigger] self@.serves(j, need as int),
                },
            decreases n - i,
        {
            let c = self.blocks[i];
            if c.taken.is_none() && c.size >= need {
                match best {
                    Some(b) => {
                        if c.size < self.blocks[b].size {
                            best = Some(i);
                        }
                    },
                    None => {
                        best = Some(i);
                    },
                }
            }
            i = i + 1;
        }
        proof {
            match best {
                Some(b) => {
                    assert(self@.is_best_fit(b as int, need as int));
                    let c = self@.best_fit(need as int);
                    assert(self@.is_best_fit(c, need as int));
                    assert(self@.serves(c, need as int));
                    assert(self@.serves(b as int, need as int));
                },
                None => {},
            }
        }
        best
    }

    /// Index of the block that the live allocation of `size` bytes at `addr`
    /// holds, if there is one.
    fn find_live(&self, addr: usize, size: usize) -> (r: Option<usize>)
        requires
            self.wf(),
        ensures
            match r {
                Some(k) => self@.holds(k as int, addr, size) && self@.live_index(addr, size) == k,
                None => !self@.is_live(addr, size),
            },
    {
        let n = self.blocks.len();
        let mut k: usize = 0;
        while k < n
            invariant
                k <= n,
                n == self.blocks@.len(),
                self.wf(),
                forall|j: int| 0 <= j < k ==> !#[trigger] self@.holds(j, addr, size),
            decreases n - k,
        {
            let c = self.blocks[k];
            let held: bool = match c.taken {
                Some(asked) => asked == size,
                None => false,
            };
            if c.addr == addr && held {
                proof {
                    assert(self@.holds(k as int, addr, size));
                    let m = self@.live_index(addr, size);
                    assert(self@.holds(m, addr, size));
                    lemma_same_addr(self.blocks@, self.arenas@, m, k as int);
                }
                return Some(k);
            }
            k = k + 1;
        }
        None
    }

    /// Index of the free buddy of block `k`, if there is one.
    fn find_buddy(&self, k: usize) -> (r: Option<usize>)
        requires
            self@.wf(),
            k < self.blocks@.len(),
        ensures
            match r {
                Some(j) => j < self.blocks@.len() && self.blocks@[j as int].is_buddy_of(
                    self.blocks@[k as int],
                ) && buddy_index(self.blocks@, k as int) == j,
                None => !has_buddy(self.blocks@, k as int),
            },
    {
        let b = self.blocks[k];
        proof {
            assert(self.blocks@[k as int].valid());
            lemma_pow2_positive(b.size as int);
            lemma_mod_double(b.addr as int, b.size as int);
            vstd::arithmetic::div_mod::lemma_mod_decreases(b.addr as nat, (2 * b.size) as nat);
            // a buddy lies within the address space, and so does the pair
            assert forall|j: int|
                0 <= j < self.blocks@.len() && #[trigger] self.blocks@[j].is_buddy_of(
                    b,
                ) implies b.buddy_addr() + b.size <= usize::MAX && 2 * b.size <= usize::MAX by {
                assert(self.blocks@[j].valid());
            }
        }
        let twice = match b.size.checked_mul(2) {
            Some(t) => t,
            None => {
                return None;
            },
        };
        let want: usize = if b.addr % twice == 0 {
            match b.addr.checked_add(b.size) {
                Some(w) => w,
                None => {
                    return None;
                },
            }
        } else {
            b.addr - b.size
        };
        assert(want == b.buddy_addr());
        let n = self.blocks.len();
        let mut j: usize = 0;
        while j < n
            invariant
                j <= n,
                n == self.blocks@.len(),
                k < n,
                self@.wf(),
                b == self.blocks@[k as int],
                want == b.buddy_addr(),
                forall|m: int| 0 <= m < j ==> !#[trigger] self.blocks@[m].is_buddy_of(b),
            decreases n - j,
        {
            let c = self.blocks[j];
            if c.addr == want && c.size == b.size && c.taken.is_none() {
                proof {
                    let m = buddy_index(self.blocks@, k as int);
                    assert(self.blocks@[j as int].is_buddy_of(b));
                    lemma_same_addr(self.blocks@, self.arenas@, m, j as int);
                }
                return Some(j);
            }
            j = j + 1;
        }
        None
    }

    /// Allocates `size` bytes at a multiple of `align`: the best fit among
    /// the free blocks, cut down to the size of the block for the request.
    ///
    /// Fails with `InvalidParam` where `align` is no power of two, and with
    /// `NoMemory` where no free block is large enough; a failed request
    /// leaves the heap as it was.
    #[verifier::rlimit(50)]
    pub fn alloc_bytes(&mut self, size: usize, align: usize) -> (r: AllocResult<usize>)
        requires
            old(self).wf(),
        ensures
            final(self).wf(),
            old(self)@.alloc_post(final(self)@, size, align, r),
    {
        if !is_power_of_two(align) {
            return Err(AllocError::InvalidParam);
        }
        proof {
            lemma_block_size(size as int, align as int);
            lemma_next_pow2(size as int);
        }
        let p = match checked_next_power_of_two(size) {
            Some(p) => p,
            None => {
                return Err(AllocError::NoMemory);
            },
        };
        let m: usize = if p >= align {
            p
        } else {
            align
        };
        let need: usize = if m >= MIN_BLOCK_SIZE {
            m
        } else {
            MIN_BLOCK_SIZE
        };
        let i = match self.find_best(need) {
            Some(i) => i,
            None => {
                return Err(AllocError::NoMemory);
            },
        };
        let b = self.blocks[i];
        let ghost first = self.blocks@;
        proof {
            assert(self@.serves(i as int, need as int));
            assert(first[i as int].valid());
            lemma_aligned_to_smaller(b.addr as int, b.size as int, align as int);
            assert(first =~= first.update(i as int, b) + split_rest(
                b.addr as int,
                b.size as int,
                b.size as int,
            ));
        }
        let mut cur: usize = b.size;
        while cur > need
            invariant
                self.arenas == old(self).arenas,
                self.total == old(self).total,
                self.used == old(self).used,
                old(self).wf(),
                first == old(self).blocks@,
                i < first.len(),
                b == first[i as int],
                b.valid(),
                b.is_free(),
                is_pow2(cur as int),
                is_pow2(need as int),
                MIN_BLOCK_SIZE <= need <= cur <= b.size,
                blocks_ok(self.blocks@, self.arenas@),
                sum_sizes(self.blocks@) == sum_sizes(first),
                sum_taken(self.blocks@) == sum_taken(first),
                self.blocks@ == first.update(
                    i as int,
                    Block { addr: b.addr, size: cur, taken: None },
                ) + split_rest(b.addr as int, cur as int, b.size as int),
            decreases cur,
        {
            let half: usize = cur / 2;
            let ghost before = self.blocks@;
            proof {
                lemma_pow2_gap(need as int, cur as int);
                lemma_split(before, self.arenas@, i as int);
            }
            self.blocks.set(i, Block { addr: b.addr, size: half, taken: None });
            self.blocks.push(Block { addr: b.addr + half, size: half, taken: None });
            proof {
                assert(before[i as int].lower_half() == Block {
                    addr: b.addr,
                    size: half,
                    taken: None,
                });
                assert(before[i as int].upper_half() == Block {
                    addr: (b.addr + half) as usize,
                    size: half,
                    taken: None,
                });
                assert(self.blocks@ =~= before.update(i as int, before[i as int].lower_half()).push(
                    before[i as int].upper_half(),
                ));
                assert(self.blocks@ =~= first.update(
                    i as int,
                    Block { addr: b.addr, size: half, taken: None },
                ) + split_rest(b.addr as int, half as int, b.size as int));
            }
            cur = half;
        }
        let ghost before = self.blocks@;
        proof {
            lemma_retag(before, self.arenas@, i as int, Some(size));
            lemma_sum_update(before, i as int, Block { taken: Some(size), ..before[i as int] });
            lemma_sum_bounds(before.update(i as int, Block { taken: Some(size), ..before[i as int] }));
        }
        self.blocks.set(i, Block { addr: b.addr, size: need, taken: Some(size) });
        self.used = self.used + need;
        proof {
            assert(self.blocks@ =~= old(self)@.after_alloc(i as int, size, need as int).blocks);
        }
        Ok(b.addr)
    }

    /// Returns the allocation of `size` bytes at `addr`: its block becomes
    /// free and is joined with its buddy as long as the buddy is free.
    ///
    /// Fails with `NotAllocated` where no live allocation of `size` bytes
    /// starts at `addr`; the heap then stays as it was.
    #[verifier::rlimit(50)]
    pub fn dealloc_bytes(&mut self, addr: usize, size: usize) -> (r: AllocResult)
        requires
            old(self).wf(),
        ensures
            final(self).wf(),
            old(self)@.dealloc_post(final(self)@, addr, size, r),
    {
        let k0 = match self.find_live(addr, size) {
            Some(k) => k,
            None => {
                return Err(AllocError::NotAllocated);
            },
        };
        let b = self.blocks[k0];
        let ghost first = self.blocks@;
        proof {
            lemma_retag(first, self.arenas@, k0 as int, None);
            lemma_sum_update(first, k0 as int, Block { taken: None, ..first[k0 as int] });
            lemma_sum_bounds(first.update(k0 as int, Block { taken: None, ..first[k0 as int] }));
        }
        self.blocks.set(k0, Block { addr: b.addr, size: b.size, taken: None });
        self.used = self.used - b.size;
        let ghost target = coalesce(self.blocks@, k0 as int);
        proof {
            assert(self.blocks@ =~= first.update(k0 as int, first[k0 as int].released()));
        }
        let mut k: usize = k0;
        let mut merging: bool = true;
        while merging
            invariant
                self.arenas == old(self).arenas,
                self.total == old(self).total,
                self.used == old(self).used - b.size,
                self@.wf(),
                self.used == sum_taken(self.blocks@),
                merging ==> k < self.blocks@.len() && self.blocks@[k as int].is_free() && coalesce(
                    self.blocks@,
                    k as int,
                ) == target,
                !merging ==> self.blocks@ == target,
            decreases
                    self.blocks@.len() + if merging {
                        1int
                    } else {
                        0int
                    },
        {
            match self.find_buddy(k) {
                Some(j) => {
                    let c = self.blocks[k];
                    let d = self.blocks[j];
                    let ghost before = self.blocks@;
                    proof {
                        lemma_merge(before, self.arenas@, k as int, j as int);
                        assert(has_buddy(before, k as int));
                    }
                    let parent = Block {
                        addr: if d.addr < c.addr {
                            d.addr
                        } else {
                            c.addr
                        },
                        size: c.size * 2,
                        taken: None,
                    };
                    assert(parent == before[k as int].parent());
                    self.blocks.set(k, parent);
                    self.blocks.remove(j);
                    if j < k {
                        k = k - 1;
                    }
                },
                None => {
                    merging = false;
                },
            }
        }
        Ok(())
    }

    /// Registers the arena of `size` bytes at `start` and cuts it into free
    /// blocks.
    ///
    /// Fails with `InvalidParam` where the arena is empty, does not start and
    /// end at page boundaries, does not lie in the address space, or shares
    /// an address with an arena of the heap; the heap then stays as it was.
    #[verifier::rlimit(50)]
    pub fn add_memory(&mut self, start: usize, size: usize) -> (r: AllocResult)
        requires
            old(self).wf(),
        ensures
            final(self).wf(),
            old(self)@.add_post(final(self)@, Arena { start, size }, r),
    {
        let a = Arena { start, size };
        if size == 0 || start % PAGE_SIZE != 0 || size % PAGE_SIZE != 0 {
            return Err(AllocError::InvalidParam);
        }
        let end = match start.checked_add(size) {
            Some(end) => end,
            None => {
                return Err(AllocError::InvalidParam);
            },
        };
        let total = match self.total.checked_add(size) {
            Some(total) => total,
            None => {
                return Err(AllocError::InvalidParam);
            },
        };
        let n = self.arenas.len();
        let mut i: usize = 0;
        while i < n
            invariant
                i <= n,
                n == self.arenas@.len(),
                *self == *old(self),
                old(self).wf(),
                a == (Arena { start, size }),
                end == start + size,
                forall|m: int| 0 <= m < i ==> #[trigger] self.arenas@[m].disjoint(a),
            decreases n - i,
        {
            let r = self.arenas[i];
            assert(self.arenas@[i as int].valid());
            if !(r.start + r.size <= start || end <= r.start) {
                proof {
                    assert(!self.arenas@[i as int].disjoint(a));
                }
                return Err(AllocError::InvalidParam);
            }
            i = i + 1;
        }
        let ghost first = self.blocks@;
        let ghost old_arenas = self.arenas@;
        self.arenas.push(a);
        self.total = total;
        proof {
            lemma_sum_arenas_push(old_arenas, a);
            lemma_page_size_pow2();
            lemma_new_arena(first, old_arenas, a);
            lemma_push_arena(old_arenas, a);
            assert(first =~= first + Seq::<Block>::empty());
        }
        let ghost mut done: Seq<Block> = Seq::empty();
        let mut cur: usize = start;
        while cur < end
            invariant
                self.arenas@ == old_arenas.push(a),
                self.total == old(self).total + size,
                self.used == old(self).used,
                a == (Arena { start, size }),
                a.valid(),
                end == start + size,
                start <= cur <= end,
                cur % PAGE_SIZE == 0,
                end % PAGE_SIZE == 0,
                is_pow2(PAGE_SIZE as int),
                self.blocks@ == first + done,
                done + arena_blocks(cur as int, end as int) == arena_blocks(
                    start as int,
                    end as int,
                ),
                blocks_ok(self.blocks@, self.arenas@),
                forall|m: int|
                    0 <= m < self.blocks@.len() ==> (#[trigger] self.blocks@[m]).addr
                        + self.blocks@[m].size <= cur || end <= self.blocks@[m].addr,
                sum_sizes(self.blocks@) == sum_sizes(first) + (cur - start),
                sum_taken(self.blocks@) == sum_taken(first),
            decreases end - cur,
        {
            let rem: usize = end - cur;
            let mut sz: usize = PAGE_SIZE;
            while sz <= rem / 2 && cur % (sz * 2) == 0
                invariant
                    rem == end - cur,
                    is_pow2(sz as int),
                    PAGE_SIZE <= sz <= rem,
                    cur % sz == 0,
                    block_at(cur as int, rem as int, sz as int) == block_at(
                        cur as int,
                        rem as int,
                        PAGE_SIZE as int,
                    ),
                decreases rem - sz,
            {
                proof {
                    lemma_pow2_double(sz as int);
                }
                sz = sz * 2;
            }
            let block = Block { addr: cur, size: sz, taken: None };
            proof {
                lemma_pow2_divides(sz as int, PAGE_SIZE as int);
                lemma_carve_step(
                    self.blocks@,
                    self.arenas@,
                    first,
                    done,
                    start as int,
                    cur as int,
                    end as int,
                    sz as int,
                );
                done = done.push(block);
            }
            self.blocks.push(block);
            cur = cur + sz;
        }
        proof {
            assert(arena_blocks(end as int, end as int) =~= Seq::<Block>::empty());
            assert(done =~= arena_blocks(start as int, end as int));
        }
        Ok(())
    }

    /// Makes the heap hold the arena of `size` bytes at `start` and nothing
    /// else.
    ///
    /// Fails with `InvalidParam` where the arena is empty, does not start and
    /// end at page boundaries, or does not lie in the address space; the heap
    /// then stays as it was.
    pub fn init(&mut self, start: usize, size: usize) -> (r: AllocResult)
        requires
            old(self).wf(),
        ensures
            final(self).wf(),
            match r {
                Ok(()) => {
                    &&& (Arena { start, size }).valid()
                    &&& final(self)@ == HeapView::empty().after_add(Arena { start, size })
                    &&& final(self)@.total() == size
                    &&& final(self)@.used() == 0
                },
                Err(e) => {
                    &&& final(self)@ == old(self)@
                    &&& e == AllocError::InvalidParam
                    &&& !(Arena { start, size }).valid()
                },
            },
    {
        if size == 0 || start % PAGE_SIZE != 0 || size % PAGE_SIZE != 0 {
            return Err(AllocError::InvalidParam);
        }
        if start.checked_add(size).is_none() {
            return Err(AllocError::InvalidParam);
        }
        self.blocks = Vec::new();
        self.arenas = Vec::new();
        self.total = 0;
        self.used = 0;
        self.add_memory(start, size)
    }
}

} // verus!
