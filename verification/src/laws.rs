//! Guarantees the allocator gives its callers, stated over the model
//! transitions and proved once and for all.

use vstd::prelude::*;

verus! {

use vstd::arithmetic::div_mod::lemma_small_mod;
use crate::free_list::{FreeBlock, spec_fits, lemma_first_fit_found, lemma_first_fit_not_found};
use crate::utils::{spec_align_up, lemma_align_up_props, lemma_align_up_exact,
    lemma_pow2_mod_coarse_to_fine};
use crate::sbrk::{AllocModel, inv, region_wf, ranges_disjoint, alloc_pre, spec_allocate,
    spec_deallocate, spec_eff_align, spec_out_size, lemma_alloc_pre, lemma_eff_align_pow2,
    lemma_malloc_preserves_inv, lemma_free_preserves_inv};
use crate::HEADER_SIZE;

/// Every address handed out is a multiple of the requested power-of-two
/// alignment.
pub proof fn lemma_allocate_aligned(m: AllocModel, size: usize, align: usize)
    requires
        alloc_pre(m, size, align),
    ensures
        spec_allocate(m, size, align).1 % align == 0,
{
    lemma_alloc_pre(m, size, align);
    lemma_malloc_preserves_inv(m, spec_out_size(size, align), spec_eff_align(align));
    lemma_eff_align_pow2(align);
    lemma_pow2_mod_coarse_to_fine(spec_allocate(m, size, align).1, align, spec_eff_align(align));
}

/// No two live (allocated and not yet freed) regions overlap, in any
/// state satisfying the allocator invariant — which `allocate` and
/// `deallocate` both preserve.
pub proof fn lemma_live_regions_disjoint(m: AllocModel, a1: usize, a2: usize)
    requires
        inv(m),
        m.live.contains_key(a1),
        m.live.contains_key(a2),
        a1 != a2,
    ensures
        ranges_disjoint(a1 as int, m.live[a1] as int, a2 as int, m.live[a2] as int),
{
}

/// Reuse: allocate, deallocate the result, and allocate the same
/// request again before anything else happens — the repeated allocation
/// returns the same address and restores the same state, because the
/// freed block sits at the head of the list and fits the request
/// exactly.
pub proof fn lemma_reuse(m: AllocModel, size: usize, align: usize)
    requires
        alloc_pre(m, size, align),
    ensures
        ({
            let (m1, a) = spec_allocate(m, size, align);
            let m2 = spec_deallocate(m1, a, size, align);
            spec_allocate(m2, size, align) == (m1, a)
        }),
{
    let eff = spec_eff_align(align);
    let out = spec_out_size(size, align);
    lemma_alloc_pre(m, size, align);
    lemma_malloc_preserves_inv(m, out, eff);
    let (m1, a) = spec_allocate(m, size, align);
    let m2 = spec_deallocate(m1, a, size, align);
    lemma_free_preserves_inv(m1, a, out);
    let ba = FreeBlock { addr: a, size: out };
    assert(m2.free[0] == ba);
    assert(region_wf(m1, a, out));
    assert(out >= eff) by {
        if out < eff {
            lemma_small_mod(out as nat, eff as nat);
        }
    }
    lemma_eff_align_pow2(align);
    lemma_align_up_exact(a, eff);
    assert(spec_fits(ba, out, eff));
    lemma_first_fit_found(m2.free, out, eff, 0);
    let (m3, b) = spec_allocate(m2, size, align);
    assert(b == a);
    assert(m3.free =~= m1.free) by {
        assert(m2.free.remove(0) =~= m1.free);
    }
    assert(m2.live =~= m.live);
    assert(m3.live =~= m1.live);
    assert(m3 =~= m1);
}

/// Excess splitting: free a large region, then allocate a smaller
/// request of the same alignment whose padded size leaves at least a
/// header's worth of room. The smaller allocation reuses the region's
/// start, and the remainder reappears at once as the head free block —
/// tracked and reusable, not leaked.
pub proof fn lemma_excess_split(m: AllocModel, size_l: usize, size_s: usize, align: usize)
    requires
        alloc_pre(m, size_l, align),
        size_s <= size_l,
        spec_out_size(size_s, align) + HEADER_SIZE <= spec_out_size(size_l, align),
    ensures
        ({
            let out_l = spec_out_size(size_l, align);
            let out_s = spec_out_size(size_s, align);
            let (m1, a) = spec_allocate(m, size_l, align);
            let m2 = spec_deallocate(m1, a, size_l, align);
            let (m3, b) = spec_allocate(m2, size_s, align);
            &&& b == a
            &&& 0 < m3.free.len()
            &&& m3.free[0] == (FreeBlock {
                addr: (a + out_s) as usize,
                size: (out_l - out_s) as usize,
            })
        }),
{
    let eff = spec_eff_align(align);
    let out_l = spec_out_size(size_l, align);
    let out_s = spec_out_size(size_s, align);
    lemma_alloc_pre(m, size_l, align);
    lemma_malloc_preserves_inv(m, out_l, eff);
    let (m1, a) = spec_allocate(m, size_l, align);
    let m2 = spec_deallocate(m1, a, size_l, align);
    lemma_free_preserves_inv(m1, a, out_l);
    let ba = FreeBlock { addr: a, size: out_l };
    assert(m2.free[0] == ba);
    assert(region_wf(m1, a, out_l));
    assert(out_l >= eff) by {
        if out_l < eff {
            lemma_small_mod(out_l as nat, eff as nat);
        }
    }
    lemma_eff_align_pow2(align);
    lemma_align_up_exact(a, eff);
    assert(spec_fits(ba, out_s, eff));
    lemma_first_fit_found(m2.free, out_s, eff, 0);
}

/// Sliver rejection: when the only free block would be left with a
/// leftover smaller than a header, the candidate is rejected — granting
/// it would leak the sliver forever — and the allocation is served by
/// heap growth instead, leaving the block untouched.
pub proof fn lemma_sliver_rejected(m: AllocModel, size: usize, align: usize)
    requires
        alloc_pre(m, size, align),
        m.free.len() == 1,
        ({
            let b = m.free[0];
            let start = spec_align_up(b.addr, spec_eff_align(align));
            let leftover = b.spec_end() - (start + spec_out_size(size, align));
            0 < leftover < HEADER_SIZE
        }),
    ensures
        ({
            let (m1, a) = spec_allocate(m, size, align);
            &&& a == spec_align_up(m.heap_end, spec_eff_align(align))
            &&& m1.free == m.free
            &&& m1.heap_end == a + spec_out_size(size, align)
            &&& m1.heap_end > m.heap_end
        }),
{
    let eff = spec_eff_align(align);
    let out = spec_out_size(size, align);
    lemma_alloc_pre(m, size, align);
    assert(!spec_fits(m.free[0], out, eff));
    assert forall|j: int| 0 <= j < m.free.len() implies !spec_fits(
        #[trigger] m.free[j],
        out,
        eff,
    ) by {
        assert(j == 0);
    }
    lemma_first_fit_not_found(m.free, out, eff);
    lemma_align_up_props(m.heap_end, eff);
    assert(out > 0) by {
        lemma_align_up_props((size + HEADER_SIZE) as usize, eff);
    }
}

/// The heap only ever grows: allocation may advance the break cursor,
/// never retract it, and deallocation does not move it at all — no
/// memory is ever handed back to its source.
pub proof fn lemma_heap_monotonic(m: AllocModel, size: usize, align: usize, addr: usize)
    requires
        alloc_pre(m, size, align),
    ensures
        spec_allocate(m, size, align).0.heap_end >= m.heap_end,
        spec_deallocate(m, addr, size, align).heap_end == m.heap_end,
{
    lemma_alloc_pre(m, size, align);
    lemma_malloc_preserves_inv(m, spec_out_size(size, align), spec_eff_align(align));
}

/// One allocate-then-deallocate round of a fixed request.
pub open spec fn spec_round(m: AllocModel, size: usize, align: usize) -> AllocModel {
    let r = spec_allocate(m, size, align);
    spec_deallocate(r.0, r.1, size, align)
}

/// `n` such rounds in a row.
pub open spec fn spec_rounds(m: AllocModel, size: usize, align: usize, n: nat) -> AllocModel
    decreases n,
{
    if n == 0 {
        m
    } else {
        spec_rounds(spec_round(m, size, align), size, align, (n - 1) as nat)
    }
}

proof fn lemma_rounds_fixed_point(m: AllocModel, size: usize, align: usize, n: nat)
    requires
        spec_round(m, size, align) == m,
    ensures
        spec_rounds(m, size, align, n) == m,
    decreases n,
{
    if n > 0 {
        lemma_rounds_fixed_point(m, size, align, (n - 1) as nat);
    }
}

/// Monotonic growth count: repeating allocate-then-deallocate of one
/// request reaches a fixed point after the first round. However many
/// rounds run, the state — and in particular the break cursor — is the
/// one the first round left, so the heap grows at most once, on the
/// first allocation, and never after.
pub proof fn lemma_growth_at_most_once(m: AllocModel, size: usize, align: usize, n: nat)
    requires
        alloc_pre(m, size, align),
        1 <= n,
    ensures
        spec_rounds(m, size, align, n) == spec_round(m, size, align),
        spec_rounds(m, size, align, n).heap_end == spec_allocate(m, size, align).0.heap_end,
{
    let m2 = spec_round(m, size, align);
    lemma_reuse(m, size, align);
    assert(spec_round(m2, size, align) == m2);
    lemma_rounds_fixed_point(m2, size, align, (n - 1) as nat);
}

} // verus!
