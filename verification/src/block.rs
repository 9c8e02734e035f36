//! Buddy blocks: the power-of-two pieces into which the byte heap cuts its
//! arenas, and the facts about cutting and joining them.

use crate::config::{
    align_down_spec, lemma_align_down, lemma_multiples_apart, lemma_pow2_double, lemma_pow2_gap,
    lemma_pow2_half, lemma_pow2_positive, PAGE_SIZE,
};
use vstd::arithmetic::power2::is_pow2;
use vstd::prelude::*;

verus! {

/// Size of the smallest block that the heap hands out.
pub const MIN_BLOCK_SIZE: usize = 8;

/// One block of the heap: `size` bytes at `addr`, free or held by an
/// allocation.
#[derive(Debug, Clone, Copy, PartialEq, Eq, Structural)]
pub struct Block {
    /// First address of the block, a multiple of `size`.
    pub addr: usize,
    /// Extent of the block in bytes, a power of two.
    pub size: usize,
    /// Bytes that the allocation holding the block asked for; `None` while
    /// the block is free.
    pub taken: Option<usize>,
}

/// One range of memory that was registered with the heap.
#[derive(Debug, Clone, Copy, PartialEq, Eq, Structural)]
pub struct Arena {
    /// First address of the arena.
    pub start: usize,
    /// Extent of the arena in bytes.
    pub size: usize,
}

impl Arena {
    /// The arena is not empty, lies in the address space, and starts and ends
    /// at page boundaries.
    pub open spec fn valid(self) -> bool {
        &&& self.size > 0
        &&& self.start + self.size <= usize::MAX
        &&& self.start % PAGE_SIZE == 0
        &&& self.size % PAGE_SIZE == 0
    }

    /// The arena holds address `x`.
    pub open spec fn has(self, x: int) -> bool {
        self.start <= x < self.start + self.size
    }

    /// The two arenas share no address.
    pub open spec fn disjoint(self, other: Arena) -> bool {
        self.start + self.size <= other.start || other.start + other.size <= self.start
    }
}

impl Block {
    /// The block has a power of two as its size, is aligned to it, lies in
    /// the address space, and holds what its allocation asked for.
    pub open spec fn valid(self) -> bool {
        &&& is_pow2(self.size as int)
        &&& self.size >= MIN_BLOCK_SIZE
        &&& self.addr % self.size == 0
        &&& self.addr + self.size <= usize::MAX
        &&& match self.taken {
            Some(asked) => asked <= self.size,
            None => true,
        }
    }

    /// The block holds address `x`.
    pub open spec fn has(self, x: int) -> bool {
        self.addr <= x < self.addr + self.size
    }

    /// The two blocks share no address.
    pub open spec fn disjoint(self, other: Block) -> bool {
        self.addr + self.size <= other.addr || other.addr + other.size <= self.addr
    }

    /// Whether the block is free.
    pub open spec fn is_free(self) -> bool {
        self.taken is None
    }

    /// Address of the block of the same size with which this one forms an
    /// aligned block of twice the size.
    pub open spec fn buddy_addr(self) -> int {
        if (self.addr as int) % (2 * self.size) == 0 {
            self.addr + self.size
        } else {
            self.addr - self.size
        }
    }

    /// Whether this block is free and the buddy of `other`.
    pub open spec fn is_buddy_of(self, other: Block) -> bool {
        self.is_free() && self.size == other.size && self.addr == other.buddy_addr()
    }

    /// The free block of twice the size that this block and its buddy form.
    pub open spec fn parent(self) -> Block {
        Block {
            addr: align_down_spec(self.addr as int, 2 * self.size) as usize,
            size: (2 * self.size) as usize,
            taken: None,
        }
    }

    /// The lower half of this block, free.
    pub open spec fn lower_half(self) -> Block {
        Block { addr: self.addr, size: (self.size / 2) as usize, taken: None }
    }

    /// The upper half of this block, free.
    pub open spec fn upper_half(self) -> Block {
        Block {
            addr: (self.addr + self.size / 2) as usize,
            size: (self.size / 2) as usize,
            taken: None,
        }
    }

    /// This block as held by an allocation that asked for `asked` bytes.
    pub open spec fn held(self, asked: usize) -> Block {
        Block { taken: Some(asked), ..self }
    }

    /// This block as a free one.
    pub open spec fn released(self) -> Block {
        Block { taken: None, ..self }
    }
}

/// Some arena holds address `x`.
pub open spec fn covered(arenas: Seq<Arena>, x: int) -> bool {
    exists|k: int| 0 <= k < arenas.len() && #[trigger] arenas[k].has(x)
}

/// The blocks are valid, share no address with one another, and lie within
/// the arenas.
pub open spec fn blocks_ok(blocks: Seq<Block>, arenas: Seq<Arena>) -> bool {
    &&& forall|i: int| 0 <= i < blocks.len() ==> #[trigger] blocks[i].valid()
    &&& forall|i: int, j: int|
        0 <= i < blocks.len() && 0 <= j < blocks.len() && i != j ==> #[trigger] blocks[i].disjoint(
            blocks[j],
        )
    &&& forall|i: int, x: int|
        0 <= i < blocks.len() && #[trigger] blocks[i].has(x) ==> covered(arenas, x)
}

/// Bytes in all the blocks.
pub open spec fn sum_sizes(blocks: Seq<Block>) -> int
    decreases blocks.len(),
{
    if blocks.len() == 0 {
        0
    } else {
        sum_sizes(blocks.drop_last()) + blocks.last().size
    }
}

/// Bytes in the blocks that allocations hold.
pub open spec fn sum_taken(blocks: Seq<Block>) -> int
    decreases blocks.len(),
{
    if blocks.len() == 0 {
        0
    } else {
        sum_taken(blocks.drop_last()) + if blocks.last().is_free() {
            0int
        } else {
            blocks.last().size as int
        }
    }
}

/// Bytes in all the arenas.
pub open spec fn sum_arenas(arenas: Seq<Arena>) -> int
    decreases arenas.len(),
{
    if arenas.len() == 0 {
        0
    } else {
        sum_arenas(arenas.drop_last()) + arenas.last().size
    }
}

/// The free blocks that are left when a block of `hi` bytes at `addr` is cut
/// down to its lowest `lo` bytes: the upper halves, largest first.
pub open spec fn split_rest(addr: int, lo: int, hi: int) -> Seq<Block>
    decreases hi - lo,
{
    if lo <= 0 || 2 * lo > hi {
        Seq::empty()
    } else {
        split_rest(addr, 2 * lo, hi).push(
            Block { addr: (addr + lo) as usize, size: lo as usize, taken: None },
        )
    }
}

/// The allocations hold no more bytes than the blocks have, and none less
/// than nothing.
pub proof fn lemma_sum_bounds(blocks: Seq<Block>)
    ensures
        0 <= sum_taken(blocks) <= sum_sizes(blocks),
    decreases blocks.len(),
{
    if blocks.len() > 0 {
        lemma_sum_bounds(blocks.drop_last());
    }
}

/// Appending a block adds its size to the sums.
pub proof fn lemma_sum_push(blocks: Seq<Block>, b: Block)
    ensures
        sum_sizes(blocks.push(b)) == sum_sizes(blocks) + b.size,
        sum_taken(blocks.push(b)) == sum_taken(blocks) + if b.is_free() {
            0int
        } else {
            b.size as int
        },
{
    assert(blocks.push(b).drop_last() =~= blocks);
}

/// Replacing a block replaces its size in the sums.
pub proof fn lemma_sum_update(blocks: Seq<Block>, i: int, b: Block)
    requires
        0 <= i < blocks.len(),
    ensures
        sum_sizes(blocks.update(i, b)) == sum_sizes(blocks) - blocks[i].size + b.size,
        sum_taken(blocks.update(i, b)) == sum_taken(blocks) - (if blocks[i].is_free() {
            0int
        } else {
            blocks[i].size as int
        }) + if b.is_free() {
            0int
        } else {
            b.size as int
        },
    decreases blocks.len(),
{
    let g = blocks.update(i, b);
    if i == blocks.len() - 1 {
        assert(g.drop_last() =~= blocks.drop_last());
    } else {
        assert(g.drop_last() =~= blocks.drop_last().update(i, b));
        lemma_sum_update(blocks.drop_last(), i, b);
    }
}

/// Removing a block takes its size out of the sums.
pub proof fn lemma_sum_remove(blocks: Seq<Block>, i: int)
    requires
        0 <= i < blocks.len(),
    ensures
        sum_sizes(blocks.remove(i)) == sum_sizes(blocks) - blocks[i].size,
        sum_taken(blocks.remove(i)) == sum_taken(blocks) - if blocks[i].is_free() {
            0int
        } else {
            blocks[i].size as int
        },
    decreases blocks.len(),
{
    let g = blocks.remove(i);
    if i == blocks.len() - 1 {
        assert(g =~= blocks.drop_last());
    } else {
        assert(g.drop_last() =~= blocks.drop_last().remove(i));
        assert(g.last() == blocks.last());
        lemma_sum_remove(blocks.drop_last(), i);
    }
}

/// Appending an arena adds its size to the sum.
pub proof fn lemma_sum_arenas_push(arenas: Seq<Arena>, a: Arena)
    ensures
        sum_arenas(arenas.push(a)) == sum_arenas(arenas) + a.size,
{
    assert(arenas.push(a).drop_last() =~= arenas);
}

/// A multiple of `s` leaves 0 or `s` when divided by `2 * s`.
pub proof fn lemma_mod_double(a: int, s: int)
    requires
        s > 0,
        a >= 0,
        a % s == 0,
    ensures
        a % (2 * s) == 0 || a % (2 * s) == s,
{
    let d = 2 * s;
    lemma_align_down(a, d);
    let base = align_down_spec(a, d);
    // `base` is a multiple of `s` as well, within `2 * s` below `a`
    vstd::arithmetic::div_mod::lemma_fundamental_div_mod(base, d);
    let q = base / d;
    assert(base == s * (2 * q)) by (nonlinear_arith)
        requires
            base == d * q,
            d == 2 * s,
    ;
    vstd::arithmetic::div_mod::lemma_mod_multiples_basic(2 * q, s);
    assert(base == (2 * q) * s) by (nonlinear_arith)
        requires
            base == s * (2 * q),
    ;
    if base < a {
        lemma_multiples_apart(base, a, s);
        if base + s < a {
            assert((base + s) % s == 0) by {
                vstd::arithmetic::div_mod::lemma_mod_add_multiples_vanish(base, s);
            }
            lemma_multiples_apart(base + s, a, s);
        }
    }
}

/// A multiple of `2 * s` is a multiple of `s`, and so is what lies `s` above.
pub proof fn lemma_mod_halves(a: int, s: int)
    requires
        s > 0,
        a % (2 * s) == 0,
    ensures
        a % s == 0,
        (a + s) % s == 0,
{
    let d = 2 * s;
    vstd::arithmetic::div_mod::lemma_fundamental_div_mod(a, d);
    let q = a / d;
    assert(a == (2 * q) * s) by (nonlinear_arith)
        requires
            a == d * q,
            d == 2 * s,
    ;
    vstd::arithmetic::div_mod::lemma_mod_multiples_basic(2 * q, s);
    vstd::arithmetic::div_mod::lemma_mod_add_multiples_vanish(a, s);
}

/// A multiple of a power of two is a multiple of every smaller power of two.
pub proof fn lemma_aligned_to_smaller(a: int, big: int, small: int)
    requires
        a >= 0,
        is_pow2(big),
        is_pow2(small),
        small <= big,
        a % big == 0,
    ensures
        a % small == 0,
{
    lemma_pow2_positive(small);
    crate::config::lemma_pow2_divides(big, small);
    vstd::arithmetic::div_mod::lemma_fundamental_div_mod(a, big);
    vstd::arithmetic::div_mod::lemma_fundamental_div_mod(big, small);
    let q = a / big;
    let r = big / small;
    assert(a == (q * r) * small) by (nonlinear_arith)
        requires
            a == big * q,
            big == small * r,
    ;
    vstd::arithmetic::div_mod::lemma_mod_multiples_basic(q * r, small);
}

/// Arenas that are added leave covered what was covered.
pub proof fn lemma_covered_push(arenas: Seq<Arena>, a: Arena, x: int)
    requires
        covered(arenas, x) || a.has(x),
    ensures
        covered(arenas.push(a), x),
{
    let more = arenas.push(a);
    if covered(arenas, x) {
        let k = choose|k: int| 0 <= k < arenas.len() && #[trigger] arenas[k].has(x);
        assert(more[k].has(x));
    } else {
        assert(more[arenas.len() as int].has(x));
    }
}

/// Cutting a free block in two leaves the blocks in order and their sums as
/// they were.
#[verifier::rlimit(50)]
pub proof fn lemma_split(blocks: Seq<Block>, arenas: Seq<Arena>, i: int)
    requires
        blocks_ok(blocks, arenas),
        0 <= i < blocks.len(),
        blocks[i].is_free(),
        blocks[i].size >= 2 * MIN_BLOCK_SIZE,
    ensures
        blocks_ok(blocks.update(i, blocks[i].lower_half()).push(blocks[i].upper_half()), arenas),
        sum_sizes(blocks.update(i, blocks[i].lower_half()).push(blocks[i].upper_half()))
            == sum_sizes(blocks),
        sum_taken(blocks.update(i, blocks[i].lower_half()).push(blocks[i].upper_half()))
            == sum_taken(blocks),
        blocks[i].lower_half().valid(),
        blocks[i].upper_half().valid(),
        2 * (blocks[i].size / 2) == blocks[i].size,
{
    let b = blocks[i];
    let lo = b.lower_half();
    let hi = b.upper_half();
    let h = (b.size / 2) as int;
    let mid = blocks.update(i, lo);
    let out = mid.push(hi);
    assert(b.valid());
    lemma_pow2_half(b.size as int);
    lemma_mod_halves(b.addr as int, h);
    lemma_sum_update(blocks, i, lo);
    lemma_sum_push(mid, hi);
    assert forall|k: int| 0 <= k < out.len() implies #[trigger] out[k].valid() by {
        if k < blocks.len() && k != i {
            assert(blocks[k].valid());
        }
    }
    assert forall|k: int, m: int|
        0 <= k < out.len() && 0 <= m < out.len() && k != m implies #[trigger] out[k].disjoint(
        out[m],
    ) by {
        let k0 = if k < blocks.len() {
            k
        } else {
            i
        };
        let m0 = if m < blocks.len() {
            m
        } else {
            i
        };
        if k0 != m0 {
            assert(blocks[k0].disjoint(blocks[m0]));
        }
    }
    assert forall|k: int, x: int| 0 <= k < out.len() && #[trigger] out[k].has(x) implies covered(
        arenas,
        x,
    ) by {
        let k0 = if k < blocks.len() {
            k
        } else {
            i
        };
        assert(blocks[k0].has(x));
    }
}

/// Handing a free block to an allocation that fits it, or taking it back,
/// leaves the blocks in order.
pub proof fn lemma_retag(blocks: Seq<Block>, arenas: Seq<Arena>, i: int, taken: Option<usize>)
    requires
        blocks_ok(blocks, arenas),
        0 <= i < blocks.len(),
        match taken {
            Some(asked) => asked <= blocks[i].size,
            None => true,
        },
    ensures
        blocks_ok(blocks.update(i, Block { taken, ..blocks[i] }), arenas),
        sum_sizes(blocks.update(i, Block { taken, ..blocks[i] })) == sum_sizes(blocks),
{
    let out = blocks.update(i, Block { taken, ..blocks[i] });
    lemma_sum_update(blocks, i, Block { taken, ..blocks[i] });
    assert forall|k: int| 0 <= k < out.len() implies #[trigger] out[k].valid() by {
        assert(blocks[k].valid());
    }
    assert forall|k: int, m: int|
        0 <= k < out.len() && 0 <= m < out.len() && k != m implies #[trigger] out[k].disjoint(
        out[m],
    ) by {
        assert(blocks[k].disjoint(blocks[m]));
    }
    assert forall|k: int, x: int| 0 <= k < out.len() && #[trigger] out[k].has(x) implies covered(
        arenas,
        x,
    ) by {
        assert(blocks[k].has(x));
    }
}

/// Joining a free block with its free buddy leaves the blocks in order and
/// their sums as they were.
#[verifier::rlimit(50)]
pub proof fn lemma_merge(blocks: Seq<Block>, arenas: Seq<Arena>, k: int, j: int)
    requires
        blocks_ok(blocks, arenas),
        0 <= k < blocks.len(),
        0 <= j < blocks.len(),
        blocks[k].is_free(),
        blocks[j].is_buddy_of(blocks[k]),
    ensures
        j != k,
        blocks[k].parent().valid(),
        blocks[k].parent().addr == if blocks[j].addr < blocks[k].addr {
            blocks[j].addr
        } else {
            blocks[k].addr
        },
        blocks[k].parent().size == 2 * blocks[k].size,
        blocks_ok(blocks.update(k, blocks[k].parent()).remove(j), arenas),
        sum_sizes(blocks.update(k, blocks[k].parent()).remove(j)) == sum_sizes(blocks),
        sum_taken(blocks.update(k, blocks[k].parent()).remove(j)) == sum_taken(blocks),
{
    let b = blocks[k];
    let c = blocks[j];
    let p = b.parent();
    let s = b.size as int;
    assert(b.valid());
    assert(c.valid());
    lemma_pow2_positive(s);
    lemma_pow2_double(s);
    lemma_mod_double(b.addr as int, s);
    lemma_align_down(b.addr as int, 2 * s);
    assert(j != k);
    assert(b.disjoint(c));
    assert(p.addr + p.size <= usize::MAX);
    assert(p.valid());
    let mid = blocks.update(k, p);
    let out = mid.remove(j);
    lemma_sum_update(blocks, k, p);
    lemma_sum_remove(mid, j);
    assert forall|n: int| 0 <= n < out.len() implies #[trigger] out[n].valid() by {
        let n0 = if n < j {
            n
        } else {
            n + 1
        };
        if n0 != k {
            assert(blocks[n0].valid());
        }
    }
    assert forall|n: int, m: int|
        0 <= n < out.len() && 0 <= m < out.len() && n != m implies #[trigger] out[n].disjoint(
        out[m],
    ) by {
        let n0 = if n < j {
            n
        } else {
            n + 1
        };
        let m0 = if m < j {
            m
        } else {
            m + 1
        };
        assert(out[n] == mid[n0]);
        assert(out[m] == mid[m0]);
        assert(blocks[n0].disjoint(blocks[m0]));
        assert(blocks[n0].disjoint(blocks[j]));
        assert(blocks[m0].disjoint(blocks[j]));
        assert(p.addr + p.size == b.addr + s || p.addr + p.size == c.addr + s);
        // a block that is apart from both halves has no room between them
        assert(blocks[n0].valid());
        assert(blocks[m0].valid());
    }
    assert forall|n: int, x: int| 0 <= n < out.len() && #[trigger] out[n].has(x) implies covered(
        arenas,
        x,
    ) by {
        let n0 = if n < j {
            n
        } else {
            n + 1
        };
        if n0 == k {
            if b.has(x) {
                assert(blocks[k].has(x));
            } else {
                assert(blocks[j].has(x));
            }
        } else {
            assert(blocks[n0].has(x));
        }
    }
}

/// Two blocks in order that start at one address are one block.
pub proof fn lemma_same_addr(blocks: Seq<Block>, arenas: Seq<Arena>, i: int, j: int)
    requires
        blocks_ok(blocks, arenas),
        0 <= i < blocks.len(),
        0 <= j < blocks.len(),
        blocks[i].addr == blocks[j].addr,
    ensures
        i == j,
{
    if i != j {
        assert(blocks[i].valid());
        assert(blocks[j].valid());
        assert(blocks[i].disjoint(blocks[j]));
    }
}

/// A new arena that is apart from the arenas leaves the blocks in order, and
/// no block reaches into it.
pub proof fn lemma_new_arena(blocks: Seq<Block>, arenas: Seq<Arena>, a: Arena)
    requires
        blocks_ok(blocks, arenas),
        a.valid(),
        forall|t: int| 0 <= t < arenas.len() ==> #[trigger] arenas[t].disjoint(a),
    ensures
        blocks_ok(blocks, arenas.push(a)),
        forall|i: int|
            0 <= i < blocks.len() ==> (#[trigger] blocks[i]).addr + blocks[i].size <= a.start
                || a.start + a.size <= blocks[i].addr,
{
    assert forall|i: int, x: int| 0 <= i < blocks.len() && #[trigger] blocks[i].has(
        x,
    ) implies covered(arenas.push(a), x) by {
        lemma_covered_push(arenas, a, x);
    }
    assert forall|i: int| 0 <= i < blocks.len() implies (#[trigger] blocks[i]).addr
        + blocks[i].size <= a.start || a.start + a.size <= blocks[i].addr by {
        let b = blocks[i];
        assert(b.valid());
        if !(b.addr + b.size <= a.start || a.start + a.size <= b.addr) {
            let x = if b.addr >= a.start {
                b.addr as int
            } else {
                a.start as int
            };
            assert(b.has(x));
            assert(covered(arenas, x));
            let t = choose|t: int| 0 <= t < arenas.len() && #[trigger] arenas[t].has(x);
            assert(arenas[t].disjoint(a));
            assert(a.has(x));
        }
    }
}

/// A valid block that is apart from all the blocks and lies within an arena
/// can join them.
pub proof fn lemma_push_block(blocks: Seq<Block>, arenas: Seq<Arena>, b: Block, t: int)
    requires
        blocks_ok(blocks, arenas),
        b.valid(),
        0 <= t < arenas.len(),
        arenas[t].start <= b.addr,
        b.addr + b.size <= arenas[t].start + arenas[t].size,
        forall|i: int| 0 <= i < blocks.len() ==> #[trigger] blocks[i].disjoint(b),
    ensures
        blocks_ok(blocks.push(b), arenas),
{
    let out = blocks.push(b);
    assert forall|k: int| 0 <= k < out.len() implies #[trigger] out[k].valid() by {
        if k < blocks.len() {
            assert(blocks[k].valid());
        }
    }
    assert forall|k: int, m: int|
        0 <= k < out.len() && 0 <= m < out.len() && k != m implies #[trigger] out[k].disjoint(
        out[m],
    ) by {
        if k < blocks.len() && m < blocks.len() {
            assert(blocks[k].disjoint(blocks[m]));
        } else if k < blocks.len() {
            assert(blocks[k].disjoint(b));
        } else {
            assert(blocks[m].disjoint(b));
        }
    }
    assert forall|k: int, x: int| 0 <= k < out.len() && #[trigger] out[k].has(x) implies covered(
        arenas,
        x,
    ) by {
        if k < blocks.len() {
            assert(blocks[k].has(x));
        } else {
            assert(arenas[t].has(x));
        }
    }
}

/// A valid arena that is apart from valid arenas which are apart from one
/// another can join them.
pub proof fn lemma_push_arena(arenas: Seq<Arena>, a: Arena)
    requires
        forall|i: int| 0 <= i < arenas.len() ==> #[trigger] arenas[i].valid(),
        forall|i: int, j: int|
            0 <= i < arenas.len() && 0 <= j < arenas.len() && i != j
                ==> #[trigger] arenas[i].disjoint(arenas[j]),
        a.valid(),
        forall|i: int| 0 <= i < arenas.len() ==> #[trigger] arenas[i].disjoint(a),
    ensures
        forall|i: int| 0 <= i < arenas.push(a).len() ==> #[trigger] arenas.push(a)[i].valid(),
        forall|i: int, j: int|
            0 <= i < arenas.push(a).len() && 0 <= j < arenas.push(a).len() && i != j
                ==> #[trigger] arenas.push(a)[i].disjoint(arenas.push(a)[j]),
{
    let out = arenas.push(a);
    assert forall|i: int| 0 <= i < out.len() implies #[trigger] out[i].valid() by {
        if i < arenas.len() {
            assert(arenas[i].valid());
        }
    }
    assert forall|i: int, j: int|
        0 <= i < out.len() && 0 <= j < out.len() && i != j implies #[trigger] out[i].disjoint(
        out[j],
    ) by {
        if i < arenas.len() && j < arenas.len() {
            assert(arenas[i].disjoint(arenas[j]));
        } else if i < arenas.len() {
            assert(arenas[i].disjoint(a));
        } else {
            assert(arenas[j].disjoint(a));
        }
    }
}

/// The sums of two runs of blocks add up.
pub proof fn lemma_sum_concat(blocks: Seq<Block>, more: Seq<Block>)
    ensures
        sum_sizes(blocks + more) == sum_sizes(blocks) + sum_sizes(more),
        sum_taken(blocks + more) == sum_taken(blocks) + sum_taken(more),
    decreases more.len(),
{
    if more.len() == 0 {
        assert(blocks + more =~= blocks);
    } else {
        assert((blocks + more).drop_last() =~= blocks + more.drop_last());
        lemma_sum_concat(blocks, more.drop_last());
    }
}

/// Blocks that are valid, apart from one another and from all the blocks,
/// and within one arena can join the blocks.
#[verifier::rlimit(50)]
pub proof fn lemma_concat_ok(blocks: Seq<Block>, more: Seq<Block>, arenas: Seq<Arena>, t: int)
    requires
        blocks_ok(blocks, arenas),
        0 <= t < arenas.len(),
        forall|m: int|
            0 <= m < more.len() ==> (#[trigger] more[m]).valid() && arenas[t].start <= more[m].addr
                && more[m].addr + more[m].size <= arenas[t].start + arenas[t].size,
        forall|m: int, q: int|
            0 <= m < more.len() && 0 <= q < more.len() && m != q ==> #[trigger] more[m].disjoint(
                more[q],
            ),
        forall|i: int, m: int|
            0 <= i < blocks.len() && 0 <= m < more.len() ==> #[trigger] blocks[i].disjoint(
                more[m],
            ),
    ensures
        blocks_ok(blocks + more, arenas),
{
    let out = blocks + more;
    let n = blocks.len() as int;
    assert forall|k: int| 0 <= k < out.len() implies #[trigger] out[k].valid() by {
        if k < n {
            assert(blocks[k].valid());
        } else {
            assert(more[k - n].valid());
        }
    }
    assert forall|k: int, m: int|
        0 <= k < out.len() && 0 <= m < out.len() && k != m implies #[trigger] out[k].disjoint(
        out[m],
    ) by {
        if k < n && m < n {
            assert(blocks[k].disjoint(blocks[m]));
        } else if k < n {
            assert(blocks[k].disjoint(more[m - n]));
        } else if m < n {
            assert(blocks[m].disjoint(more[k - n]));
        } else {
            assert(more[k - n].disjoint(more[m - n]));
        }
    }
    assert forall|k: int, x: int| 0 <= k < out.len() && #[trigger] out[k].has(x) implies covered(
        arenas,
        x,
    ) by {
        if k < n {
            assert(blocks[k].has(x));
        } else {
            assert(more[k - n].valid());
            assert(arenas[t].has(x));
        }
    }
}

/// Cutting the free block `i` down to its lowest `cur` bytes leaves the
/// blocks in order and their sums as they were.
#[verifier::rlimit(50)]
pub proof fn lemma_cut_down(blocks: Seq<Block>, arenas: Seq<Arena>, i: int, cur: int)
    requires
        blocks_ok(blocks, arenas),
        0 <= i < blocks.len(),
        blocks[i].is_free(),
        is_pow2(cur),
        MIN_BLOCK_SIZE <= cur <= blocks[i].size,
    ensures
        ({
            let out = blocks.update(
                i,
                Block { addr: blocks[i].addr, size: cur as usize, taken: None },
            ) + split_rest(blocks[i].addr as int, cur, blocks[i].size as int);
            &&& blocks_ok(out, arenas)
            &&& sum_sizes(out) == sum_sizes(blocks)
            &&& sum_taken(out) == sum_taken(blocks)
        }),
    decreases blocks[i].size - cur,
{
    let b = blocks[i];
    let out = blocks.update(i, Block { addr: b.addr, size: cur as usize, taken: None })
        + split_rest(b.addr as int, cur, b.size as int);
    assert(b.valid());
    if cur == b.size {
        assert(out =~= blocks);
    } else {
        lemma_pow2_gap(cur, b.size as int);
        lemma_pow2_double(cur);
        lemma_cut_down(blocks, arenas, i, 2 * cur);
        let mid = blocks.update(i, Block { addr: b.addr, size: (2 * cur) as usize, taken: None })
            + split_rest(b.addr as int, 2 * cur, b.size as int);
        assert(mid[i] == Block { addr: b.addr, size: (2 * cur) as usize, taken: None });
        lemma_split(mid, arenas, i);
        assert(out =~= mid.update(i, mid[i].lower_half()).push(mid[i].upper_half()));
    }
}

} // verus!
