//! The free list: records of freed heap regions, reused first-fit.
//!
//! A freed region is tracked by a block record holding its start address
//! and byte length (header included). Insertion is always at the head, so
//! blocks appear in reverse-chronological free order.

use vstd::prelude::*;

verus! {

use crate::utils::{is_power_of_two, spec_align_up, to_align};
use crate::HEADER_SIZE;

/// One free region: `[addr, addr + size)`.
#[derive(Clone, Copy, Debug, PartialEq, Eq, Structural)]
pub struct FreeBlock {
    pub addr: usize,
    pub size: usize,
}

impl FreeBlock {
    /// One past the last address of the region.
    pub open spec fn spec_end(self) -> int {
        self.addr + self.size
    }

    pub fn new(addr: usize, size: usize) -> (b: Self)
        ensures
            b.addr == addr,
            b.size == size,
    {
        FreeBlock { addr, size }
    }

    /// First address of the region.
    pub fn start_addr(&self) -> (r: usize)
        ensures
            r == self.addr,
    {
        self.addr
    }

    /// One past the last address of the region.
    pub fn end_addr(&self) -> (r: usize)
        requires
            self.addr + self.size <= usize::MAX,
        ensures
            r == self.spec_end(),
    {
        self.addr + self.size
    }
}

/// Whether `b` can serve an allocation of `size` bytes at alignment
/// `align`: the aligned range must fit inside the block, and the leftover
/// tail must be either empty or large enough to host a free-list header —
/// a smaller sliver could never be tracked and would leak.
pub open spec fn spec_fits(b: FreeBlock, size: usize, align: usize) -> bool
    recommends
        is_power_of_two(align),
        b.addr + align - 1 <= usize::MAX,
{
    let start = spec_align_up(b.addr, align);
    let excess = b.spec_end() - (start + size);
    &&& start + size <= b.spec_end()
    &&& (excess == 0 || excess >= HEADER_SIZE)
}

/// Index of the first block that fits, scanning from the head.
pub open spec fn spec_first_fit(blocks: Seq<FreeBlock>, size: usize, align: usize) -> Option<int>
    decreases blocks.len(),
{
    if blocks.len() == 0 {
        None
    } else if spec_fits(blocks[0], size, align) {
        Some(0)
    } else {
        match spec_first_fit(blocks.drop_first(), size, align) {
            Some(i) => Some(i + 1),
            None => None,
        }
    }
}

/// If `blocks[i]` fits and nothing before it does, the first fit is `i`.
pub proof fn lemma_first_fit_found(blocks: Seq<FreeBlock>, size: usize, align: usize, i: int)
    requires
        0 <= i < blocks.len(),
        spec_fits(blocks[i], size, align),
        forall|j: int| 0 <= j < i ==> !spec_fits(#[trigger] blocks[j], size, align),
    ensures
        spec_first_fit(blocks, size, align) == Some(i),
    decreases i,
{
    if i > 0 {
        let rest = blocks.drop_first();
        assert forall|j: int| 0 <= j < i - 1 implies !spec_fits(#[trigger] rest[j], size, align) by {
            assert(rest[j] == blocks[j + 1]);
        }
        assert(rest[i - 1] == blocks[i]);
        lemma_first_fit_found(rest, size, align, i - 1);
    }
}

/// The first fit, when there is one, indexes a fitting block, and no
/// block before it fits.
pub proof fn lemma_first_fit_sound(blocks: Seq<FreeBlock>, size: usize, align: usize)
    requires
        spec_first_fit(blocks, size, align) is Some,
    ensures
        ({
            let i = spec_first_fit(blocks, size, align)->Some_0;
            &&& 0 <= i < blocks.len()
            &&& spec_fits(blocks[i], size, align)
            &&& forall|j: int| 0 <= j < i ==> !spec_fits(#[trigger] blocks[j], size, align)
        }),
    decreases blocks.len(),
{
    let i = spec_first_fit(blocks, size, align)->Some_0;
    if !spec_fits(blocks[0], size, align) {
        let rest = blocks.drop_first();
        lemma_first_fit_sound(rest, size, align);
        let k = spec_first_fit(rest, size, align)->Some_0;
        assert(blocks[i] == rest[k]);
        assert forall|j: int| 0 <= j < i implies !spec_fits(#[trigger] blocks[j], size, align) by {
            if j > 0 {
                assert(blocks[j] == rest[j - 1]);
            }
        }
    }
}

/// If no block fits, the search comes up empty.
pub proof fn lemma_first_fit_not_found(blocks: Seq<FreeBlock>, size: usize, align: usize)
    requires
        forall|j: int| 0 <= j < blocks.len() ==> !spec_fits(#[trigger] blocks[j], size, align),
    ensures
        spec_first_fit(blocks, size, align) is None,
    decreases blocks.len(),
{
    if blocks.len() > 0 {
        let rest = blocks.drop_first();
        assert forall|j: int| 0 <= j < rest.len() implies !spec_fits(#[trigger] rest[j], size, align) by {
            assert(rest[j] == blocks[j + 1]);
        }
        lemma_first_fit_not_found(rest, size, align);
    }
}

/// The list of free regions, most recently freed first.
pub struct FreeBlockList {
    blocks: Vec<FreeBlock>,
}

impl View for FreeBlockList {
    type V = Seq<FreeBlock>;

    closed spec fn view(&self) -> Seq<FreeBlock> {
        self.blocks@
    }
}

impl FreeBlockList {
    /// An empty list: no region is free.
    pub fn new() -> (l: Self)
        ensures
            l@ == Seq::<FreeBlock>::empty(),
    {
        FreeBlockList { blocks: Vec::new() }
    }

    /// Push operation: records `[addr, addr + size)` as free, at the head
    /// of the list. Ownership of the region passes back to the allocator.
    pub fn add_free_block(&mut self, addr: usize, size: usize)
        ensures
            final(self)@ == old(self)@.insert(0, (FreeBlock { addr, size })),
    {
        self.blocks.insert(0, FreeBlock { addr, size });
    }

    /// The head of the list: the most recently freed region, if any.
    pub fn head_block(&self) -> (r: Option<FreeBlock>)
        ensures
            (match r {
                Some(b) => self@.len() > 0 && b == self@[0],
                None => self@.len() == 0,
            }),
    {
        if self.blocks.len() > 0 {
            Some(self.blocks[0])
        } else {
            None
        }
    }

    /// Checks whether `block` can serve an allocation of `size` bytes at
    /// alignment `align`; on success returns the aligned start address
    /// the allocation would be placed at.
    pub fn check_block(block: &FreeBlock, size: usize, align: usize) -> (r: Result<usize, ()>)
        requires
            is_power_of_two(align),
            block.addr + align - 1 <= usize::MAX,
            block.addr + block.size <= usize::MAX,
        ensures
            (match r {
                Ok(start) => spec_fits(*block, size, align) && start == spec_align_up(
                    block.addr,
                    align,
                ),
                Err(()) => !spec_fits(*block, size, align),
            }),
    {
        let alloc_start = to_align(block.start_addr(), align);
        let alloc_end = match alloc_start.checked_add(size) {
            Some(e) => e,
            None => {
                return Err(());
            },
        };
        if alloc_end > block.end_addr() {
            // region too small once the start is aligned
            return Err(());
        }
        let excess_size = block.end_addr() - alloc_end;
        if excess_size > 0 && excess_size < HEADER_SIZE {
            // the tail would be a sliver: too small to ever hold a
            // free-list header, so it could never be reused
            return Err(());
        }
        Ok(alloc_start)
    }

    /// First-fit search. Unlinks and returns the first block that can
    /// serve the request, together with the aligned address the
    /// allocation starts at. `None` means no free region suffices; the
    /// caller grows the heap instead — that is a normal branch, not an
    /// error.
    pub fn find_free_block(&mut self, size: usize, align: usize) -> (r: Option<(FreeBlock, usize)>)
        requires
            is_power_of_two(align),
            forall|i: int| 0 <= i < old(self)@.len() ==> (#[trigger] old(self)@[i]).addr + align - 1
                <= usize::MAX && old(self)@[i].addr + old(self)@[i].size <= usize::MAX,
        ensures
            (match spec_first_fit(old(self)@, size, align) {
                Some(i) => r == Some(
                    (old(self)@[i], spec_align_up(old(self)@[i].addr, align)),
                ) && final(self)@ == old(self)@.remove(i),
                None => r is None && final(self)@ == old(self)@,
            }),
    {
        let mut idx: usize = 0;
        while idx < self.blocks.len()
            invariant
                self@ == old(self)@,
                idx <= self.blocks.len(),
                is_power_of_two(align),
                forall|i: int| 0 <= i < old(self)@.len() ==> (#[trigger] old(self)@[i]).addr
                    + align - 1 <= usize::MAX && old(self)@[i].addr + old(self)@[i].size
                    <= usize::MAX,
                forall|j: int| 0 <= j < idx ==> !spec_fits(#[trigger] old(self)@[j], size, align),
            decreases self.blocks.len() - idx,
        {
            let b = self.blocks[idx];
            match Self::check_block(&b, size, align) {
                Ok(start) => {
                    let blk = self.blocks.remove(idx);
                    proof {
                        lemma_first_fit_found(old(self)@, size, align, idx as int);
                    }
                    return Some((blk, start));
                },
                Err(()) => {},
            }
            idx = idx + 1;
        }
        proof {
            lemma_first_fit_not_found(old(self)@, size, align);
        }
        None
    }
}

} // verus!
