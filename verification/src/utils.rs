//! Alignment arithmetic: rounding a size up to a power-of-two boundary.

use vstd::prelude::*;

verus! {

use vstd::arithmetic::power2::{pow2, lemma_pow2_pos, lemma_pow2_strictly_increases, lemma_pow2_adds};
use vstd::arithmetic::div_mod::{lemma_fundamental_div_mod, lemma_mod_multiples_basic};
use vstd::bits::{low_bits_mask, lemma_usize_low_bits_mask_is_mod};

/// `align` is a power of two that fits in a `usize`.
pub open spec fn is_power_of_two(align: usize) -> bool {
    exists|n: nat| n < usize::BITS && align == pow2(n)
}

/// The smallest multiple of `align` that is at least `size`, computed the
/// way the executable code computes it (mask arithmetic). Meaningful only
/// when `align` is a power of two and the sum below stays in range.
pub open spec fn spec_align_up(size: usize, align: usize) -> usize
    recommends
        is_power_of_two(align),
        size + align - 1 <= usize::MAX,
{
    (((size + align - 1) as usize) & !((align - 1) as usize))
}

/// What the mask computation yields: a multiple of `align`, at least
/// `size`, and less than `size + align` — so it is exactly the smallest
/// multiple of `align` that is `>= size`.
pub proof fn lemma_align_up_props(size: usize, align: usize)
    requires
        is_power_of_two(align),
        size + align - 1 <= usize::MAX,
    ensures
        spec_align_up(size, align) % align == 0,
        size <= spec_align_up(size, align),
        spec_align_up(size, align) < size + align,
{
    let n = choose|n: nat| n < usize::BITS && align == pow2(n);
    lemma_pow2_pos(n);
    let m = (align - 1) as usize;
    let r = spec_align_up(size, align);
    assert((size + m) as usize == size + m);
    assert(r == ((size + m) as usize) & !m);
    assert(r & m == 0 && size <= r && r <= size + m) by (bit_vector)
        requires
            r == ((size + m) as usize) & !m,
            (size + m) as usize == size + m,
    ;
    lemma_usize_low_bits_mask_is_mod(r, n);
    assert(low_bits_mask(n) as usize == m);
    assert(r % align == 0);
}

/// A value already on an `align` boundary rounds up to itself.
pub proof fn lemma_align_up_exact(size: usize, align: usize)
    requires
        is_power_of_two(align),
        size + align - 1 <= usize::MAX,
        size % align == 0,
    ensures
        spec_align_up(size, align) == size,
{
    let n = choose|n: nat| n < usize::BITS && align == pow2(n);
    lemma_pow2_pos(n);
    let m = (align - 1) as usize;
    lemma_usize_low_bits_mask_is_mod(size, n);
    assert(low_bits_mask(n) as usize == m);
    assert(size & m == 0);
    assert((size + m) as usize == size + m);
    assert(((size + m) as usize) & !m == size) by (bit_vector)
        requires
            size & m == 0,
            (size + m) as usize == size + m,
    ;
}

/// A multiple of a larger power of two is a multiple of a smaller one.
pub proof fn lemma_pow2_mod_coarse_to_fine(x: usize, small: usize, big: usize)
    requires
        is_power_of_two(small),
        is_power_of_two(big),
        small <= big,
        x % big == 0,
    ensures
        x % small == 0,
{
    let j = choose|n: nat| n < usize::BITS && small == pow2(n);
    let k = choose|n: nat| n < usize::BITS && big == pow2(n);
    lemma_pow2_pos(j);
    lemma_pow2_pos(k);
    if k < j {
        lemma_pow2_strictly_increases(k, j);
        assert(false);
    }
    lemma_fundamental_div_mod(x as int, big as int);
    let q = x as int / big as int;
    lemma_pow2_adds((k - j) as nat, j);
    let pkj = pow2((k - j) as nat) as int;
    let pj = pow2(j) as int;
    assert(x as int == (q * pkj) * pj) by (nonlinear_arith)
        requires
            x as int == big as int * q,
            big as int == pkj * pj,
    ;
    lemma_mod_multiples_basic(q * pkj, pj);
}

/// Rounds `size` up to the nearest multiple of `align`.
///
/// Equivalent to rounding with division, but computed with mask
/// arithmetic; only correct when `align` is a power of two, which callers
/// must guarantee.
pub fn to_align(size: usize, align: usize) -> (r: usize)
    requires
        is_power_of_two(align),
        size + align - 1 <= usize::MAX,
    ensures
        r == spec_align_up(size, align),
        r % align == 0,
        size <= r,
        r < size + align,
{
    proof {
        lemma_align_up_props(size, align);
    }
    (size + (align - 1)) & !(align - 1)
}

} // verus!
