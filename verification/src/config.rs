//! Page size and the address arithmetic shared by the allocators.

use vstd::arithmetic::power2::is_pow2;
use vstd::prelude::*;

verus! {

/// Size of one page frame in bytes.
pub const PAGE_SIZE: usize = 0x1000;

/// The greatest multiple of `align` that is not above `pos`.
pub open spec fn align_down_spec(pos: int, align: int) -> int {
    pos - pos % align
}

/// The least multiple of `align` that is not below `pos`.
pub open spec fn align_up_spec(pos: int, align: int) -> int {
    align_down_spec(pos + align - 1, align)
}

/// The least power of two that is not below `n`.
pub open spec fn next_pow2(n: int) -> int
    decreases n,
{
    if n <= 1 {
        1
    } else {
        2 * next_pow2((n + 1) / 2)
    }
}

/// Two distinct multiples of `align` lie at least `align` apart.
pub proof fn lemma_multiples_apart(a: int, b: int, align: int)
    requires
        align > 0,
        a % align == 0,
        b % align == 0,
        a < b,
    ensures
        a + align <= b,
{
    vstd::arithmetic::div_mod::lemma_fundamental_div_mod(a, align);
    vstd::arithmetic::div_mod::lemma_fundamental_div_mod(b, align);
    let qa = a / align;
    let qb = b / align;
    assert(qa < qb) by (nonlinear_arith)
        requires
            align > 0,
            a == align * qa,
            b == align * qb,
            a < b,
    ;
    assert(a + align <= b) by (nonlinear_arith)
        requires
            align > 0,
            a == align * qa,
            b == align * qb,
            qa < qb,
    ;
}

/// `align_down_spec` yields the greatest multiple of `align` not above `pos`.
pub proof fn lemma_align_down(pos: int, align: int)
    requires
        align > 0,
    ensures
        align_down_spec(pos, align) % align == 0,
        pos - align < align_down_spec(pos, align) <= pos,
        pos % align == 0 ==> align_down_spec(pos, align) == pos,
        forall|m: int| #[trigger] (m % align) == 0 && m <= pos ==> m <= align_down_spec(pos, align),
{
    let d = align_down_spec(pos, align);
    vstd::arithmetic::div_mod::lemma_fundamental_div_mod(pos, align);
    vstd::arithmetic::div_mod::lemma_mod_multiples_basic(pos / align, align);
    assert(d == (pos / align) * align) by (nonlinear_arith)
        requires
            d == align * (pos / align),
    ;
    assert forall|m: int| #[trigger] (m % align) == 0 && m <= pos implies m <= d by {
        if m > d {
            lemma_multiples_apart(d, m, align);
        }
    }
}

/// `align_up_spec` yields the least multiple of `align` not below `pos`.
pub proof fn lemma_align_up(pos: int, align: int)
    requires
        align > 0,
    ensures
        align_up_spec(pos, align) % align == 0,
        pos <= align_up_spec(pos, align) < pos + align,
        pos % align == 0 ==> align_up_spec(pos, align) == pos,
        pos % align != 0 ==> align_up_spec(pos, align) == pos + align - pos % align,
        forall|m: int| #[trigger] (m % align) == 0 && m >= pos ==> m >= align_up_spec(pos, align),
{
    let u = align_up_spec(pos, align);
    let d = align_down_spec(pos, align);
    lemma_align_down(pos + align - 1, align);
    lemma_align_down(pos, align);
    if d < u {
        lemma_multiples_apart(d, u, align);
    }
    assert((d + align) % align == 0) by {
        vstd::arithmetic::div_mod::lemma_mod_add_multiples_vanish(d, align);
    }
    if pos % align == 0 {
        if pos < u {
            lemma_multiples_apart(pos, u, align);
        }
    }
    assert forall|m: int| #[trigger] (m % align) == 0 && m >= pos implies m >= u by {
        if m < u {
            lemma_multiples_apart(m, u, align);
        }
    }
}

/// A power of two is positive.
pub proof fn lemma_pow2_positive(n: int)
    requires
        is_pow2(n),
    ensures
        n >= 1,
{
    reveal(is_pow2);
}

/// The page size is a power of two.
pub proof fn lemma_page_size_pow2()
    ensures
        is_pow2(PAGE_SIZE as int),
{
    reveal_with_fuel(is_pow2, 14);
}

/// Twice a power of two is a power of two.
pub proof fn lemma_pow2_double(n: int)
    requires
        is_pow2(n),
    ensures
        is_pow2(2 * n),
{
    reveal(is_pow2);
    assert((2 * n) / 2 == n);
}

/// A power of two above one is even, and its half is a power of two.
pub proof fn lemma_pow2_half(n: int)
    requires
        is_pow2(n),
        n > 1,
    ensures
        n % 2 == 0,
        is_pow2(n / 2),
        2 * (n / 2) == n,
{
    reveal(is_pow2);
}

/// Between a power of two and its double lies no other power of two.
pub proof fn lemma_pow2_gap(p: int, q: int)
    requires
        is_pow2(p),
        is_pow2(q),
        p < q,
    ensures
        2 * p <= q,
    decreases q,
{
    lemma_pow2_positive(p);
    lemma_pow2_half(q);
    if p < q / 2 {
        lemma_pow2_gap(p, q / 2);
    } else if p > q / 2 {
        lemma_pow2_half(p);
        lemma_pow2_gap(p / 2, q / 2);
    }
}

/// A power of two is a multiple of every smaller power of two.
pub proof fn lemma_pow2_divides(p: int, q: int)
    requires
        is_pow2(p),
        is_pow2(q),
        q <= p,
    ensures
        p % q == 0,
    decreases p,
{
    lemma_pow2_positive(q);
    if p == q {
        vstd::arithmetic::div_mod::lemma_mod_self_0(q);
    } else {
        lemma_pow2_gap(q, p);
        lemma_pow2_half(p);
        lemma_pow2_divides(p / 2, q);
        let h = p / 2;
        vstd::arithmetic::div_mod::lemma_fundamental_div_mod(h, q);
        assert(p == q * (2 * (h / q))) by (nonlinear_arith)
            requires
                p == 2 * h,
                h == q * (h / q),
        ;
        vstd::arithmetic::div_mod::lemma_mod_multiples_basic(2 * (h / q), q);
        assert(p == (2 * (h / q)) * q) by (nonlinear_arith)
            requires
                p == q * (2 * (h / q)),
        ;
    }
}

/// `next_pow2(n)` is the one power of two in `[n, 2n)`.
pub proof fn lemma_next_pow2(n: int)
    ensures
        is_pow2(next_pow2(n)),
        next_pow2(n) >= n,
        next_pow2(n) >= 1,
        n >= 1 ==> next_pow2(n) < 2 * n,
        is_pow2(n) ==> next_pow2(n) == n,
    decreases n,
{
    reveal(is_pow2);
    if n > 1 {
        lemma_next_pow2((n + 1) / 2);
        lemma_pow2_double(next_pow2((n + 1) / 2));
        if is_pow2(n) {
            lemma_pow2_half(n);
        }
    }
}

/// Any power of two in `[n, 2n)` is `next_pow2(n)`.
pub proof fn lemma_next_pow2_unique(n: int, p: int)
    requires
        is_pow2(p),
        n <= p,
        p < 2 * n || p == 1,
    ensures
        p == next_pow2(n),
{
    lemma_next_pow2(n);
    lemma_pow2_positive(p);
    let q = next_pow2(n);
    if p < q {
        lemma_pow2_gap(p, q);
    } else if q < p {
        lemma_pow2_gap(q, p);
    }
}

/// Whether `n` is a power of two.
pub fn is_power_of_two(n: usize) -> (r: bool)
    ensures
        r == is_pow2(n as int),
{
    if n == 0 {
        proof {
            reveal(is_pow2);
        }
        return false;
    }
    let mut m: usize = n;
    while m % 2 == 0
        invariant
            m > 0,
            is_pow2(m as int) == is_pow2(n as int),
        decreases m,
    {
        proof {
            reveal(is_pow2);
        }
        m = m / 2;
    }
    proof {
        reveal(is_pow2);
    }
    m == 1
}

/// The least power of two that is not below `n`, or `None` where it does not
/// fit the machine word.
pub fn checked_next_power_of_two(n: usize) -> (r: Option<usize>)
    ensures
        match r {
            Some(p) => p == next_pow2(n as int),
            None => next_pow2(n as int) > usize::MAX,
        },
{
    let mut p: usize = 1;
    proof {
        reveal(is_pow2);
    }
    while p < n
        invariant
            p >= 1,
            is_pow2(p as int),
            p == 1 || p / 2 < n,
        decreases usize::MAX - p,
    {
        proof {
            lemma_pow2_double(p as int);
        }
        match p.checked_mul(2) {
            Some(q) => {
                p = q;
            },
            None => {
                proof {
                    // the next power of two is at least `2 * p`
                    lemma_next_pow2(n as int);
                    if next_pow2(n as int) < 2 * p {
                        if next_pow2(n as int) > p {
                            lemma_pow2_gap(p as int, next_pow2(n as int));
                        }
                    }
                }
                return None;
            },
        }
    }
    proof {
        lemma_next_pow2_unique(n as int, p as int);
    }
    Some(p)
}

/// Rounds `pos` down to a multiple of `align`.
pub fn align_down(pos: usize, align: usize) -> (r: usize)
    requires
        align > 0,
    ensures
        r == align_down_spec(pos as int, align as int),
{
    proof {
        vstd::arithmetic::div_mod::lemma_mod_decreases(pos as nat, align as nat);
    }
    pos - pos % align
}

/// Rounds `pos` up to a multiple of `align`, or gives `None` where that
/// multiple does not fit the machine word.
pub fn checked_align_up(pos: usize, align: usize) -> (r: Option<usize>)
    requires
        align > 0,
    ensures
        match r {
            Some(a) => a == align_up_spec(pos as int, align as int),
            None => align_up_spec(pos as int, align as int) > usize::MAX,
        },
{
    proof {
        lemma_align_up(pos as int, align as int);
    }
    let rem: usize = pos % align;
    if rem == 0 {
        Some(pos)
    } else {
        pos.checked_add(align - rem)
    }
}

} // verus!
