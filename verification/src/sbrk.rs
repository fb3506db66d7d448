//! The allocator core: first-fit reuse over the free list, excess
//! splitting, and the monotonic heap-growth fallback.
//!
//! Addresses are plain integers of a modelled heap. The break cursor
//! (`heap_end`) only ever advances, exactly as the underlying growth
//! primitive only ever extends the heap. Regions handed out are tracked
//! by a ghost map from start address to reserved length, which is what
//! the no-overlap statements below are about.

use vstd::prelude::*;

verus! {

use vstd::arithmetic::power2::{pow2, lemma2_to64};
use vstd::arithmetic::div_mod::{lemma_add_mod_noop, lemma_sub_mod_noop};
use crate::free_list::{FreeBlock, FreeBlockList, spec_first_fit, lemma_first_fit_sound};
use crate::utils::{is_power_of_two, spec_align_up, lemma_align_up_props,
    lemma_pow2_mod_coarse_to_fine};
use crate::spin_lock::{Spinlock, SpinlockGuard};
use crate::{HEADER_SIZE, HEADER_ALIGN};

/// Where the modelled heap begins; the break cursor only grows from here.
pub const HEAP_BASE: usize = 4096;

/// The allocator state as the contracts see it: the free blocks in list
/// order, the break cursor, and the live (handed-out, not yet freed)
/// regions as a map from start address to reserved byte length.
#[verifier::ext_equal]
pub struct AllocModel {
    pub free: Seq<FreeBlock>,
    pub heap_end: usize,
    pub live: Map<usize, usize>,
}

/// The alignment actually used for a request: at least the alignment a
/// free-list header needs, so freed regions are always suitably placed.
pub open spec fn spec_eff_align(align: usize) -> usize {
    if align < HEADER_ALIGN {
        HEADER_ALIGN
    } else {
        align
    }
}

/// The byte length actually reserved for a request: padded by a header
/// and rounded to the effective alignment. Recomputed identically on
/// deallocation, which keeps the free list's region lengths exact.
pub open spec fn spec_out_size(size: usize, align: usize) -> usize {
    spec_align_up((size + HEADER_SIZE) as usize, spec_eff_align(align))
}

/// Two half-open ranges do not overlap.
pub open spec fn ranges_disjoint(a1: int, s1: int, a2: int, s2: int) -> bool {
    a1 + s1 <= a2 || a2 + s2 <= a1
}

/// A region the allocator accounts for: inside the granted heap, long
/// enough to host a header, and placed and sized on header alignment.
pub open spec fn region_wf(m: AllocModel, addr: usize, size: usize) -> bool {
    &&& HEAP_BASE <= addr
    &&& addr + size <= m.heap_end
    &&& HEADER_SIZE <= size
    &&& addr % HEADER_ALIGN == 0
    &&& size % HEADER_ALIGN == 0
}

/// The allocator invariant: every tracked region (free or live) is
/// well-formed, and no two of them overlap — free blocks among
/// themselves, live regions among themselves, and free against live.
pub open spec fn inv(m: AllocModel) -> bool {
    &&& HEAP_BASE <= m.heap_end
    &&& forall|i: int|
        0 <= i < m.free.len() ==> region_wf(m, (#[trigger] m.free[i]).addr, m.free[i].size)
    &&& forall|i: int, j: int|
        #![trigger m.free[i], m.free[j]]
        0 <= i < m.free.len() && 0 <= j < m.free.len() && i != j ==> ranges_disjoint(
            m.free[i].addr as int,
            m.free[i].size as int,
            m.free[j].addr as int,
            m.free[j].size as int,
        )
    &&& forall|a: usize| #[trigger] m.live.contains_key(a) ==> region_wf(m, a, m.live[a])
    &&& forall|a: usize, b: usize|
        #![trigger m.live.contains_key(a), m.live.contains_key(b)]
        m.live.contains_key(a) && m.live.contains_key(b) && a != b ==> ranges_disjoint(
            a as int,
            m.live[a] as int,
            b as int,
            m.live[b] as int,
        )
    &&& forall|i: int, a: usize|
        #![trigger m.free[i], m.live.contains_key(a)]
        0 <= i < m.free.len() && m.live.contains_key(a) ==> ranges_disjoint(
            m.free[i].addr as int,
            m.free[i].size as int,
            a as int,
            m.live[a] as int,
        )
}

/// The effective alignment is a power of two at least as coarse as both
/// the request's alignment and the header's.
pub proof fn lemma_eff_align_pow2(align: usize)
    requires
        is_power_of_two(align),
    ensures
        is_power_of_two(spec_eff_align(align)),
        HEADER_ALIGN <= spec_eff_align(align),
        align <= spec_eff_align(align),
        is_power_of_two(HEADER_ALIGN),
{
    lemma2_to64();
    assert(HEADER_ALIGN == pow2(3));
    assert(3 < usize::BITS);
    assert(is_power_of_two(HEADER_ALIGN));
}

/// What the model requires of a padded, aligned request before `malloc`:
/// the sizes `align_layout` produces, and room left in the address space
/// for a worst-case growth.
pub open spec fn malloc_pre(m: AllocModel, size: usize, align: usize) -> bool {
    &&& inv(m)
    &&& is_power_of_two(align)
    &&& HEADER_ALIGN <= align
    &&& HEADER_SIZE <= size
    &&& size % align == 0
    &&& m.heap_end + align - 1 + size <= usize::MAX
}

/// What serving a padded, aligned request does, at the model level:
/// reuse the first fitting free block, splitting any excess off as a new
/// head free block; with no fitting block, grow the heap at the cursor,
/// aligned. Returns the next state and the address handed out.
pub open spec fn spec_malloc(m: AllocModel, size: usize, align: usize) -> (AllocModel, usize) {
    match spec_first_fit(m.free, size, align) {
        Some(i) => {
            let b = m.free[i];
            let start = spec_align_up(b.addr, align);
            let excess = b.spec_end() - (start + size);
            let removed = m.free.remove(i);
            let free2 = if excess > 0 {
                removed.insert(
                    0,
                    (FreeBlock { addr: (start + size) as usize, size: excess as usize }),
                )
            } else {
                removed
            };
            (AllocModel { free: free2, heap_end: m.heap_end, live: m.live.insert(start, size) },
            start)
        },
        None => {
            let start = spec_align_up(m.heap_end, align);
            (AllocModel {
                free: m.free,
                heap_end: (start + size) as usize,
                live: m.live.insert(start, size),
            }, start)
        },
    }
}

/// What the model requires before `free`: the region must be live, with
/// exactly the length that was reserved for it.
pub open spec fn free_pre(m: AllocModel, addr: usize, size: usize) -> bool {
    &&& inv(m)
    &&& m.live.contains_key(addr)
    &&& m.live[addr] == size
}

/// What returning a region does, at the model level: the region stops
/// being live and becomes the head free block.
pub open spec fn spec_free(m: AllocModel, addr: usize, size: usize) -> AllocModel {
    AllocModel {
        free: m.free.insert(0, (FreeBlock { addr, size })),
        heap_end: m.heap_end,
        live: m.live.remove(addr),
    }
}

/// `malloc` keeps the allocator invariant, hands out a fresh, aligned,
/// in-heap region of exactly the reserved length, and never shrinks the
/// heap.
pub proof fn lemma_malloc_preserves_inv(m: AllocModel, size: usize, align: usize)
    requires
        malloc_pre(m, size, align),
    ensures
        ({
            let (m2, a) = spec_malloc(m, size, align);
            &&& inv(m2)
            &&& a % align == 0
            &&& !m.live.contains_key(a)
            &&& m2.live == m.live.insert(a, size)
            &&& m2.heap_end >= m.heap_end
            &&& region_wf(m2, a, size)
        }),
{
    let (m2, a) = spec_malloc(m, size, align);
    lemma_eff_align_pow2(align);
    lemma_pow2_mod_coarse_to_fine(size, HEADER_ALIGN, align);
    if spec_first_fit(m.free, size, align) is Some {
        let i = spec_first_fit(m.free, size, align)->Some_0;
        lemma_first_fit_sound(m.free, size, align);
        let b = m.free[i];
        assert(region_wf(m, b.addr, b.size));
        lemma_align_up_props(b.addr, align);
        let start = spec_align_up(b.addr, align);
        assert(a == start);
        lemma_pow2_mod_coarse_to_fine(start, HEADER_ALIGN, align);
        lemma_add_mod_noop(start as int, size as int, HEADER_ALIGN as int);
        lemma_add_mod_noop(b.addr as int, b.size as int, HEADER_ALIGN as int);
        lemma_sub_mod_noop(b.spec_end(), start + size, HEADER_ALIGN as int);
        let excess = b.spec_end() - (start + size);
        let removed = m.free.remove(i);
        // every surviving block is an old block other than `b`
        assert forall|j: int| 0 <= j < removed.len() implies removed[j] == (if j < i {
            m.free[j]
        } else {
            m.free[j + 1]
        }) by {}
        assert(!m.live.contains_key(a)) by {
            if m.live.contains_key(a) {
                assert(ranges_disjoint(b.addr as int, b.size as int, a as int, m.live[a] as int));
                assert(region_wf(m, a, m.live[a]));
            }
        }
        assert(region_wf(m2, a, size));
        // the excess block, if any, lies inside b, past the handed-out range
        assert forall|j: int|
            0 <= j < m2.free.len() implies region_wf(
            m2,
            (#[trigger] m2.free[j]).addr,
            m2.free[j].size,
        ) by {
            if excess > 0 && j == 0 {
                assert(m2.free[0] == (FreeBlock {
                    addr: (start + size) as usize,
                    size: excess as usize,
                }));
            } else {
                let jr = if excess > 0 {
                    j - 1
                } else {
                    j
                };
                assert(m2.free[j] == removed[jr]);
                assert(region_wf(m, m2.free[j].addr, m2.free[j].size));
            }
        }
        assert forall|j: int, k: int|
            #![trigger m2.free[j], m2.free[k]]
            0 <= j < m2.free.len() && 0 <= k < m2.free.len() && j != k implies ranges_disjoint(
            m2.free[j].addr as int,
            m2.free[j].size as int,
            m2.free[k].addr as int,
            m2.free[k].size as int,
        ) by {
            let jr = if excess > 0 {
                j - 1
            } else {
                j
            };
            let kr = if excess > 0 {
                k - 1
            } else {
                k
            };
            if excess > 0 && j == 0 {
                assert(removed[kr] == (if kr < i { m.free[kr] } else { m.free[kr + 1] }));
                assert(ranges_disjoint(
                    b.addr as int,
                    b.size as int,
                    m2.free[k].addr as int,
                    m2.free[k].size as int,
                ));
            } else if excess > 0 && k == 0 {
                assert(removed[jr] == (if jr < i { m.free[jr] } else { m.free[jr + 1] }));
                assert(ranges_disjoint(
                    b.addr as int,
                    b.size as int,
                    m2.free[j].addr as int,
                    m2.free[j].size as int,
                ));
            } else {
                assert(m2.free[j] == removed[jr] && m2.free[k] == removed[kr]);
                assert(removed[jr] == (if jr < i { m.free[jr] } else { m.free[jr + 1] }));
                assert(removed[kr] == (if kr < i { m.free[kr] } else { m.free[kr + 1] }));
            }
        }
        assert forall|x: usize| #[trigger]
            m2.live.contains_key(x) implies region_wf(m2, x, m2.live[x]) by {
            if x != a {
                assert(region_wf(m, x, m.live[x]));
            }
        }
        assert forall|x: usize, y: usize|
            #![trigger m2.live.contains_key(x), m2.live.contains_key(y)]
            m2.live.contains_key(x) && m2.live.contains_key(y) && x != y implies ranges_disjoint(
            x as int,
            m2.live[x] as int,
            y as int,
            m2.live[y] as int,
        ) by {
            if x == a {
                assert(ranges_disjoint(b.addr as int, b.size as int, y as int, m.live[y] as int));
            } else if y == a {
                assert(ranges_disjoint(b.addr as int, b.size as int, x as int, m.live[x] as int));
            }
        }
        assert forall|j: int, x: usize|
            #![trigger m2.free[j], m2.live.contains_key(x)]
            0 <= j < m2.free.len() && m2.live.contains_key(x) implies ranges_disjoint(
            m2.free[j].addr as int,
            m2.free[j].size as int,
            x as int,
            m2.live[x] as int,
        ) by {
            let jr = if excess > 0 {
                j - 1
            } else {
                j
            };
            if excess > 0 && j == 0 {
                if x != a {
                    assert(ranges_disjoint(
                        b.addr as int,
                        b.size as int,
                        x as int,
                        m.live[x] as int,
                    ));
                }
            } else {
                assert(m2.free[j] == removed[jr]);
                assert(removed[jr] == (if jr < i { m.free[jr] } else { m.free[jr + 1] }));
                if x == a {
                    assert(ranges_disjoint(
                        m2.free[j].addr as int,
                        m2.free[j].size as int,
                        b.addr as int,
                        b.size as int,
                    ));
                }
            }
        }
    } else {
        lemma_align_up_props(m.heap_end, align);
        let start = spec_align_up(m.heap_end, align);
        lemma_pow2_mod_coarse_to_fine(start, HEADER_ALIGN, align);
        assert(!m.live.contains_key(a)) by {
            if m.live.contains_key(a) {
                assert(region_wf(m, a, m.live[a]));
            }
        }
        assert forall|j: int|
            0 <= j < m2.free.len() implies region_wf(
            m2,
            (#[trigger] m2.free[j]).addr,
            m2.free[j].size,
        ) by {
            assert(region_wf(m, m2.free[j].addr, m2.free[j].size));
        }
        assert forall|x: usize| #[trigger]
            m2.live.contains_key(x) implies region_wf(m2, x, m2.live[x]) by {
            if x != a {
                assert(region_wf(m, x, m.live[x]));
            }
        }
        assert forall|x: usize, y: usize|
            #![trigger m2.live.contains_key(x), m2.live.contains_key(y)]
            m2.live.contains_key(x) && m2.live.contains_key(y) && x != y implies ranges_disjoint(
            x as int,
            m2.live[x] as int,
            y as int,
            m2.live[y] as int,
        ) by {
            if x == a {
                assert(region_wf(m, y, m.live[y]));
            } else if y == a {
                assert(region_wf(m, x, m.live[x]));
            }
        }
        assert forall|j: int, x: usize|
            #![trigger m2.free[j], m2.live.contains_key(x)]
            0 <= j < m2.free.len() && m2.live.contains_key(x) implies ranges_disjoint(
            m2.free[j].addr as int,
            m2.free[j].size as int,
            x as int,
            m2.live[x] as int,
        ) by {
            assert(region_wf(m, m2.free[j].addr, m2.free[j].size));
            if x == a {
            } else {
                assert(ranges_disjoint(
                    m.free[j].addr as int,
                    m.free[j].size as int,
                    x as int,
                    m.live[x] as int,
                ));
            }
        }
    }
}

/// `free` keeps the allocator invariant: the returned region was live,
/// so it is in-heap, well-formed, and disjoint from everything else
/// tracked.
pub proof fn lemma_free_preserves_inv(m: AllocModel, addr: usize, size: usize)
    requires
        free_pre(m, addr, size),
    ensures
        inv(spec_free(m, addr, size)),
{
    let m2 = spec_free(m, addr, size);
    assert(region_wf(m, addr, size));
    assert forall|j: int|
        0 <= j < m2.free.len() implies region_wf(
        m2,
        (#[trigger] m2.free[j]).addr,
        m2.free[j].size,
    ) by {
        if j > 0 {
            assert(m2.free[j] == m.free[j - 1]);
            assert(region_wf(m, m2.free[j].addr, m2.free[j].size));
        }
    }
    assert forall|j: int, k: int|
        #![trigger m2.free[j], m2.free[k]]
        0 <= j < m2.free.len() && 0 <= k < m2.free.len() && j != k implies ranges_disjoint(
        m2.free[j].addr as int,
        m2.free[j].size as int,
        m2.free[k].addr as int,
        m2.free[k].size as int,
    ) by {
        if j == 0 {
            assert(m2.free[k] == m.free[k - 1]);
            assert(ranges_disjoint(
                m.free[k - 1].addr as int,
                m.free[k - 1].size as int,
                addr as int,
                m.live[addr] as int,
            ));
        } else if k == 0 {
            assert(m2.free[j] == m.free[j - 1]);
            assert(ranges_disjoint(
                m.free[j - 1].addr as int,
                m.free[j - 1].size as int,
                addr as int,
                m.live[addr] as int,
            ));
        } else {
            assert(m2.free[j] == m.free[j - 1] && m2.free[k] == m.free[k - 1]);
        }
    }
    assert forall|x: usize| #[trigger]
        m2.live.contains_key(x) implies region_wf(m2, x, m2.live[x]) by {
        assert(region_wf(m, x, m.live[x]));
    }
    assert forall|j: int, x: usize|
        #![trigger m2.free[j], m2.live.contains_key(x)]
        0 <= j < m2.free.len() && m2.live.contains_key(x) implies ranges_disjoint(
        m2.free[j].addr as int,
        m2.free[j].size as int,
        x as int,
        m2.live[x] as int,
    ) by {
        if j == 0 {
            assert(ranges_disjoint(x as int, m.live[x] as int, addr as int, m.live[addr] as int));
        } else {
            assert(m2.free[j] == m.free[j - 1]);
            assert(ranges_disjoint(
                m.free[j - 1].addr as int,
                m.free[j - 1].size as int,
                x as int,
                m.live[x] as int,
            ));
        }
    }
}

/// What a raw request needs before `allocate`: a power-of-two alignment,
/// and enough address space left for padding, rounding and a worst-case
/// growth.
pub open spec fn alloc_pre(m: AllocModel, size: usize, align: usize) -> bool {
    &&& inv(m)
    &&& is_power_of_two(align)
    &&& size + HEADER_SIZE + spec_eff_align(align) - 1 <= usize::MAX
    &&& m.heap_end + size + HEADER_SIZE + 2 * spec_eff_align(align) <= usize::MAX
}

/// What `allocate` does: `malloc` of the padded size at the effective
/// alignment.
pub open spec fn spec_allocate(m: AllocModel, size: usize, align: usize) -> (AllocModel, usize) {
    spec_malloc(m, spec_out_size(size, align), spec_eff_align(align))
}

/// What `deallocate` does: recompute the padded size exactly as
/// `allocate` did, and return the region to the free list.
pub open spec fn spec_deallocate(m: AllocModel, addr: usize, size: usize, align: usize) -> AllocModel {
    spec_free(m, addr, spec_out_size(size, align))
}

/// A raw request that satisfies `alloc_pre` turns into a padded request
/// that satisfies `malloc_pre`.
pub proof fn lemma_alloc_pre(m: AllocModel, size: usize, align: usize)
    requires
        alloc_pre(m, size, align),
    ensures
        malloc_pre(m, spec_out_size(size, align), spec_eff_align(align)),
        size + HEADER_SIZE <= spec_out_size(size, align),
{
    lemma_eff_align_pow2(align);
    lemma_align_up_props((size + HEADER_SIZE) as usize, spec_eff_align(align));
}

/// The allocator: one free list, the modelled break cursor, and the
/// ghost account of live regions.
pub struct SbrkAllocator {
    free_list: FreeBlockList,
    heap_end: usize,
    live: Ghost<Map<usize, usize>>,
}

impl View for SbrkAllocator {
    type V = AllocModel;

    closed spec fn view(&self) -> AllocModel {
        AllocModel { free: self.free_list@, heap_end: self.heap_end, live: self.live@ }
    }
}

impl SbrkAllocator {
    /// The allocator invariant holds of the current state.
    pub open spec fn wf(self) -> bool {
        inv(self@)
    }

    /// A fresh allocator: empty free list, nothing granted, nothing
    /// live. Construction is allocation-free and cannot fail.
    pub fn new() -> (a: Self)
        ensures
            a.wf(),
            a@.free == Seq::<FreeBlock>::empty(),
            a@.heap_end == HEAP_BASE,
            a@.live == Map::<usize, usize>::empty(),
    {
        SbrkAllocator {
            free_list: FreeBlockList::new(),
            heap_end: HEAP_BASE,
            live: Ghost(Map::empty()),
        }
    }

    /// Pads the requested size by a header and rounds it up to the
    /// effective alignment, so that whatever is handed out can later
    /// host a free-list header in place when it is freed. This coupling
    /// between allocation padding and later free-list insertion is the
    /// central accounting rule of the design.
    pub fn align_layout(&self, size: usize, align: usize) -> (r: (usize, usize))
        requires
            is_power_of_two(align),
            size + HEADER_SIZE + spec_eff_align(align) - 1 <= usize::MAX,
        ensures
            r.0 == spec_out_size(size, align),
            r.1 == spec_eff_align(align),
    {
        let max_align = if align < HEADER_ALIGN {
            HEADER_ALIGN
        } else {
            align
        };
        proof {
            lemma_eff_align_pow2(align);
        }
        let out_size = crate::utils::to_align(size + HEADER_SIZE, max_align);
        (out_size, max_align)
    }

    /// The heap-growth path: advances the break cursor just far enough
    /// that the granted region starts on an `align` boundary, and
    /// returns that start. Growth is monotonic; nothing is ever handed
    /// back. The precondition rules out the one fatal case — no address
    /// space left to grow into.
    fn request_sys_mem(&mut self, size: usize, align: usize) -> (a: usize)
        requires
            is_power_of_two(align),
            old(self)@.heap_end + align - 1 + size <= usize::MAX,
        ensures
            a == spec_align_up(old(self)@.heap_end, align),
            final(self)@.heap_end == a + size,
            final(self)@.free == old(self)@.free,
            final(self)@.live == old(self)@.live,
    {
        proof {
            lemma_align_up_props(self.heap_end, align);
        }
        let start = crate::utils::to_align(self.heap_end, align);
        self.heap_end = start + size;
        start
    }

    /// Serves a padded, aligned request: reuse the first fitting free
    /// block — splitting any excess off as a new free block so the
    /// leftover stays usable — or grow the heap.
    pub fn malloc(&mut self, size: usize, align: usize) -> (a: usize)
        requires
            malloc_pre(old(self)@, size, align),
        ensures
            final(self).wf(),
            final(self)@ == spec_malloc(old(self)@, size, align).0,
            a == spec_malloc(old(self)@, size, align).1,
            a % align == 0,
            !old(self)@.live.contains_key(a),
            final(self)@.live == old(self)@.live.insert(a, size),
            final(self)@.heap_end >= old(self)@.heap_end,
            region_wf(final(self)@, a, size),
    {
        proof {
            lemma_malloc_preserves_inv(old(self)@, size, align);
            assert forall|i: int|
                0 <= i < self@.free.len() implies (#[trigger] self@.free[i]).addr + align - 1
                <= usize::MAX && self@.free[i].addr + self@.free[i].size <= usize::MAX by {
                assert(region_wf(self@, self@.free[i].addr, self@.free[i].size));
            }
        }
        match self.free_list.find_free_block(size, align) {
            Some((blk, addr)) => {
                proof {
                    lemma_first_fit_sound(old(self)@.free, size, align);
                    let i = spec_first_fit(old(self)@.free, size, align)->Some_0;
                    assert(blk == old(self)@.free[i]);
                    assert(region_wf(old(self)@, blk.addr, blk.size));
                    lemma_align_up_props(blk.addr, align);
                }
                let end = addr + size;
                let excess = blk.end_addr() - end;
                if excess > 0 {
                    // the matched block was larger than needed: keep the
                    // tail tracked instead of leaking it
                    self.free_list.add_free_block(end, excess);
                }
                proof {
                    self.live = Ghost(self.live@.insert(addr, size));
                    assert(self@ =~= spec_malloc(old(self)@, size, align).0);
                }
                addr
            },
            None => {
                let a = self.request_sys_mem(size, align);
                proof {
                    self.live = Ghost(self.live@.insert(a, size));
                    assert(self@ =~= spec_malloc(old(self)@, size, align).0);
                }
                a
            },
        }
    }

    /// Returns ownership of `[addr, addr + size)` to the allocator: the
    /// region becomes the head free block. `size` must be the exact
    /// padded length reserved when the region was handed out.
    pub fn free(&mut self, addr: usize, size: usize)
        requires
            free_pre(old(self)@, addr, size),
        ensures
            final(self).wf(),
            final(self)@ == spec_free(old(self)@, addr, size),
    {
        proof {
            lemma_free_preserves_inv(self@, addr, size);
        }
        self.free_list.add_free_block(addr, size);
        proof {
            self.live = Ghost(self.live@.remove(addr));
            assert(self@ =~= spec_free(old(self)@, addr, size));
        }
    }

    /// The allocation entry point. `align` must be a power of two; the
    /// returned address starts a region of at least `size` bytes,
    /// aligned to `align`, disjoint from every other live region, and
    /// live until `deallocate` is called for it with the same size and
    /// alignment.
    pub fn allocate(&mut self, size: usize, align: usize) -> (a: usize)
        requires
            alloc_pre(old(self)@, size, align),
        ensures
            final(self).wf(),
            final(self)@ == spec_allocate(old(self)@, size, align).0,
            a == spec_allocate(old(self)@, size, align).1,
            a % align == 0,
            HEAP_BASE <= a,
            !old(self)@.live.contains_key(a),
            final(self)@.live == old(self)@.live.insert(a, spec_out_size(size, align)),
            final(self)@.heap_end >= old(self)@.heap_end,
    {
        proof {
            lemma_alloc_pre(self@, size, align);
        }
        let (out_size, max_align) = self.align_layout(size, align);
        let a = self.malloc(out_size, max_align);
        proof {
            lemma_eff_align_pow2(align);
            lemma_pow2_mod_coarse_to_fine(a, align, max_align);
        }
        a
    }

    /// The deallocation entry point. `addr` must have come from
    /// `allocate` with the same `size` and `align` and still be live;
    /// the padded length is recomputed exactly as `allocate` computed
    /// it, which is what keeps the free list's region lengths correct.
    pub fn deallocate(&mut self, addr: usize, size: usize, align: usize)
        requires
            old(self).wf(),
            is_power_of_two(align),
            size + HEADER_SIZE + spec_eff_align(align) - 1 <= usize::MAX,
            old(self)@.live.contains_key(addr),
            old(self)@.live[addr] == spec_out_size(size, align),
        ensures
            final(self).wf(),
            final(self)@ == spec_deallocate(old(self)@, addr, size, align),
    {
        let (out_size, _max_align) = self.align_layout(size, align);
        self.free(addr, out_size);
    }

    /// The current break cursor: one past the last granted address.
    /// Watching it across calls shows when the heap actually grew.
    pub fn heap_end(&self) -> (r: usize)
        ensures
            r == self@.heap_end,
    {
        self.heap_end
    }

    /// The head of the free list — the most recently freed region — if
    /// any region is free at all.
    pub fn first_free_block(&self) -> (r: Option<FreeBlock>)
        ensures
            (match r {
                Some(b) => self@.free.len() > 0 && b == self@.free[0],
                None => self@.free.len() == 0,
            }),
    {
        self.free_list.head_block()
    }
}

/// Associates a value with a `Spinlock`: the bridging layer that gives
/// the allocator state its scoped, guaranteed-release access.
pub struct Locked<T> {
    inner: Spinlock<T>,
}

impl<T> Locked<T> {
    /// The wrapped lock.
    pub closed spec fn spec_inner(self) -> Spinlock<T> {
        self.inner
    }

    /// The lock's flag/value agreement.
    pub open spec fn wf(self) -> bool {
        self.spec_inner().wf()
    }

    /// Wraps `inner` behind a fresh, unlocked spinlock.
    pub fn new(inner: T) -> (s: Self)
        ensures
            s.wf(),
            !s.spec_inner().spec_locked(),
            s.spec_inner().spec_data() == Some(inner),
    {
        Locked { inner: Spinlock::new(inner) }
    }

    /// Delegates acquisition to the spinlock.
    pub fn lock(&mut self) -> (g: SpinlockGuard<T>)
        requires
            old(self).wf(),
            !old(self).spec_inner().spec_locked(),
        ensures
            final(self).wf(),
            final(self).spec_inner().spec_locked(),
            old(self).spec_inner().spec_data() == Some(g@),
    {
        self.inner.lock()
    }

    /// Delegates release to the spinlock.
    pub fn unlock(&mut self, g: SpinlockGuard<T>)
        requires
            old(self).wf(),
            old(self).spec_inner().spec_locked(),
        ensures
            final(self).wf(),
            !final(self).spec_inner().spec_locked(),
            final(self).spec_inner().spec_data() == Some(g@),
    {
        self.inner.unlock(g)
    }
}

impl Locked<SbrkAllocator> {
    /// The allocator state behind the lock, meaningful while the lock is
    /// free.
    pub open spec fn alloc_model(self) -> AllocModel {
        match self.spec_inner().spec_data() {
            Some(a) => a@,
            None => vstd::pervasive::arbitrary(),
        }
    }

    /// `allocate` under the lock: acquires, serves the request, and
    /// releases on the way out, so concurrent callers are serialized.
    pub fn allocate(&mut self, size: usize, align: usize) -> (a: usize)
        requires
            old(self).wf(),
            !old(self).spec_inner().spec_locked(),
            alloc_pre(old(self).alloc_model(), size, align),
        ensures
            final(self).wf(),
            !final(self).spec_inner().spec_locked(),
            final(self).alloc_model() == spec_allocate(old(self).alloc_model(), size, align).0,
            a == spec_allocate(old(self).alloc_model(), size, align).1,
            a % align == 0,
            HEAP_BASE <= a,
            inv(final(self).alloc_model()),
    {
        let mut g = self.lock();
        let a = g.get_mut().allocate(size, align);
        self.unlock(g);
        a
    }

    /// `deallocate` under the lock: acquires, returns the region, and
    /// releases on the way out.
    pub fn deallocate(&mut self, addr: usize, size: usize, align: usize)
        requires
            old(self).wf(),
            !old(self).spec_inner().spec_locked(),
            inv(old(self).alloc_model()),
            is_power_of_two(align),
            size + HEADER_SIZE + spec_eff_align(align) - 1 <= usize::MAX,
            old(self).alloc_model().live.contains_key(addr),
            old(self).alloc_model().live[addr] == spec_out_size(size, align),
        ensures
            final(self).wf(),
            !final(self).spec_inner().spec_locked(),
            final(self).alloc_model() == spec_deallocate(
                old(self).alloc_model(),
                addr,
                size,
                align,
            ),
            inv(final(self).alloc_model()),
    {
        let mut g = self.lock();
        g.get_mut().deallocate(addr, size, align);
        self.unlock(g);
    }
}

/// A sample payload a few tests size their requests by.
pub struct Thunk {
    pub field1: u32,
    pub field2: [u32; 10],
}

/// A smaller sample payload, for requests that leave excess space.
#[derive(Debug)]
pub struct SmallThunk {
    pub field1: u32,
}

} // verus!
