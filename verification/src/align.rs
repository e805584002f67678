//! Rounding sizes up to whole pages.

use vstd::prelude::*;
use vstd::arithmetic::power2;
use vstd::arithmetic::div_mod;

verus! {

/// The least multiple of `page` that is not below `size`.
pub open spec fn rounded_up(size: int, page: int) -> int {
    (size + page - 1) / page * page
}

/// Rounds `size` up to a multiple of the page size.
///
/// A page size that is no power of two is taken bit by bit all the same.
pub fn alignment(size: usize, page: usize) -> (bytes: usize)
    requires
        page > 0,
        size + page - 1 <= usize::MAX,
    ensures
        bytes == ((size + page - 1) as usize) & !((page - 1) as usize),
        power2::is_pow2(page as int) ==> bytes == rounded_up(size as int, page as int),
{
    proof {
        if power2::is_pow2(page as int) {
            lemma_mask((size + page - 1) as usize, page);
        }
    }
    (size + (page - 1)) & !(page - 1)
}

/// Clearing the bits below a power of two leaves the multiple of it that is just below.
proof fn lemma_mask(x: usize, p: usize)
    requires
        power2::is_pow2(p as int),
    ensures
        x & !((p - 1) as usize) == x / p * p,
    decreases p,
{
    reveal(power2::is_pow2);
    if p == 1 {
        assert(x & !0usize == x) by (bit_vector);
        assert(x / 1 * 1 == x);
    } else {
        let q = p / 2;
        let y = x / 2;
        let b = x % 2;
        lemma_mask(y, q);
        let pm = (p - 1) as usize;
        let qm = (q - 1) as usize;
        assert(x & !pm == 2 * (y & !qm)) by (bit_vector)
            requires
                y == x / 2,
                p == 2 * q,
                q > 0,
                pm == p - 1,
                qm == q - 1,
        ;
        div_mod::lemma_div_denominator(x as int, 2, q as int);
        assert(x / p == y / q);
        assert(2 * (y / q * q) == y / q * p) by (nonlinear_arith)
            requires
                p == 2 * q,
        ;
    }
}

/// The rounded size is the least multiple of the page size that holds the size.
pub proof fn law_least_multiple(size: int, page: int, other: int)
    requires
        page > 0,
        other % page == 0,
        other >= size,
    ensures
        size <= rounded_up(size, page) < size + page,
        rounded_up(size, page) % page == 0,
        rounded_up(size, page) <= other,
{
    let t = size + page - 1;
    div_mod::lemma_fundamental_div_mod(t, page);
    assert(t / page * page == page * (t / page)) by (nonlinear_arith);
    div_mod::lemma_mod_multiples_basic(t / page, page);
    div_mod::lemma_fundamental_div_mod(other, page);
    let k = other / page;
    let r = t / page;
    assert(k * page == page * k) by (nonlinear_arith);
    if r > k {
        assert(r * page >= (k + 1) * page) by (nonlinear_arith)
            requires
                r >= k + 1,
                page > 0,
        ;
        assert((k + 1) * page == k * page + page) by (nonlinear_arith);
    } else {
        assert(r * page <= k * page) by (nonlinear_arith)
            requires
                r <= k,
                page > 0,
        ;
    }
}

/// Rounding up a size that is rounded up already changes nothing.
pub proof fn law_rounding_twice(size: int, page: int)
    requires
        page > 0,
    ensures
        rounded_up(rounded_up(size, page), page) == rounded_up(size, page),
{
    let a = rounded_up(size, page);
    let t = size + page - 1;
    div_mod::lemma_mod_multiples_basic(t / page, page);
    law_least_multiple(a, page, a);
}

} // verus!
