//! The buffer pool.

use crate::error::{allocation_error, allocation_failure, decimal, MahoutError, Result};
use crate::laws::{law_in_use_at_most_total, law_step_keeps_valid};
use crate::promises::{
    law_device_is_asked_only_when_needed, law_smallest_free_block_serves,
    law_split_needs_a_free_block_with_room,
};
use crate::rounding::{round_size, rounded, LARGE_ROUND, SMALL_ROUND};
use crate::state::{
    is_best_fit, is_first_splittable, lemma_borrowed_block_counted, none_fits, none_free,
    none_splittable, Block, Handle, PoolState, Step,
};
use vstd::prelude::*;

verus! {

/// Statistics of a buffer pool.
#[derive(Debug, Clone)]
pub struct PoolStats {
    /// Bytes obtained from the device so far.
    pub total_allocated: usize,
    /// Bytes that are borrowed.
    pub current_in_use: usize,
    /// Number of allocations that the device has served.
    pub num_alloc_calls: usize,
    /// Number of blocks in the pool.
    pub num_blocks: usize,
}

/// A buffer that is borrowed from the pool.
pub struct PooledBuffer {
    ptr: usize,
    size: usize,
    pub(crate) block_idx: usize,
}

impl View for PooledBuffer {
    type V = Handle;

    closed spec fn view(&self) -> Handle {
        Handle { ptr: self.ptr, size: self.size, block_idx: self.block_idx as nat }
    }
}

impl PooledBuffer {
    /// Size in bytes.
    pub fn size(&self) -> (size: usize)
        ensures
            size == self@.size,
    {
        self.size
    }

    /// Device address of the first byte.
    pub fn ptr(&self) -> (ptr: usize)
        ensures
            ptr == self@.ptr,
    {
        self.ptr
    }
}

/// What a request for a buffer leads to.
pub enum Acquisition {
    /// The pool had a free block.
    Ready(PooledBuffer),
    /// The device has to supply this many bytes; what comes of it goes to
    /// `BufferPool::allocate_new_block`.
    Allocate(usize),
}

/// What became of a buffer that was given back.
#[derive(Debug, Clone, Copy, PartialEq, Eq)]
pub enum Release {
    /// The block is free again.
    Released {
        /// Bytes that are no longer in use.
        bytes: usize,
    },
    /// The pool has no block of that index.
    InvalidIndex {
        /// The index.
        block_idx: usize,
    },
    /// The block was free already.
    DoubleFree {
        /// The block's index.
        block_idx: usize,
    },
}

/// A pool of device memory for temporary buffers.
///
/// Blocks that are given back stay in the pool, and later requests are served from them, so
/// that the device has to allocate less often. Sizes are rounded, and a free block that is much
/// larger than a request is split.
pub struct BufferPool {
    /// All blocks ever allocated, free and borrowed.
    blocks: Vec<Block>,
    total_allocated: usize,
    current_in_use: usize,
    num_alloc_calls: usize,
    /// The addresses that the device has supplied.
    supplied: Vec<usize>,
}

impl View for BufferPool {
    type V = PoolState;

    closed spec fn view(&self) -> PoolState {
        PoolState {
            blocks: self.blocks@,
            total_allocated: self.total_allocated as nat,
            current_in_use: self.current_in_use as nat,
            num_alloc_calls: self.num_alloc_calls as nat,
            supplied: self.supplied@,
        }
    }
}

impl BufferPool {
    /// The counters agree with the blocks.
    pub open spec fn wf(&self) -> bool {
        self@.valid()
    }

    /// Creates a pool without blocks.
    pub fn new() -> (pool: BufferPool)
        ensures
            pool.wf(),
            pool@ == PoolState::empty(),
            pool@.blocks.len() == 0,
            pool@.total_allocated == 0,
            pool@.current_in_use == 0,
            pool@.num_alloc_calls == 0,
            pool@.supplied.len() == 0,
    {
        BufferPool {
            blocks: Vec::new(),
            total_allocated: 0,
            current_in_use: 0,
            num_alloc_calls: 0,
            supplied: Vec::new(),
        }
    }

    /// The pool's statistics.
    pub fn stats(&self) -> (stats: PoolStats)
        ensures
            stats.total_allocated == self@.total_allocated,
            stats.current_in_use == self@.current_in_use,
            stats.num_alloc_calls == self@.num_alloc_calls,
            stats.num_blocks == self@.blocks.len(),
    {
        PoolStats {
            total_allocated: self.total_allocated,
            current_in_use: self.current_in_use,
            num_alloc_calls: self.num_alloc_calls,
            num_blocks: self.blocks.len(),
        }
    }

    /// Asks the pool for a buffer of at least `size_bytes` bytes.
    ///
    /// The size is rounded first, and the best fit among the free blocks serves the request. Where
    /// it has more than `SMALL_ROUND` bytes to spare, it is split, and the rest stays free; where
    /// not, or where the rest would have no address, it is lent whole. So it is where no bytes are
    /// asked for. Where no free block fits, the device has to supply a new one of the rounded size.
    pub fn acquire(&mut self, size_bytes: usize) -> (acquisition: Acquisition)
        requires
            old(self).wf(),
            size_bytes + LARGE_ROUND <= usize::MAX,
        ensures
            final(self).wf(),
            match acquisition {
                Acquisition::Ready(buffer) => {
                    let idx = buffer@.block_idx as int;
                    &&& is_best_fit(old(self)@.blocks, rounded(size_bytes as nat), idx)
                    &&& final(self)@ == old(self)@.serve(idx, rounded(size_bytes as nat) as usize)
                    &&& buffer@ == final(self)@.handle(idx)
                    &&& buffer@.size >= size_bytes
                    // The block was free, and the smallest free one that is large enough.
                    &&& 0 <= idx < old(self)@.blocks.len()
                    &&& !old(self)@.blocks[idx].allocated
                    &&& old(self)@.blocks[idx].size >= rounded(size_bytes as nat)
                    &&& forall|j: int|
                        0 <= j < old(self)@.blocks.len() && !(
                        #[trigger] old(self)@.blocks[j]).allocated && old(self)@.blocks[j].size
                            >= rounded(size_bytes as nat) ==> {
                            ||| old(self)@.blocks[idx].size < old(self)@.blocks[j].size
                            ||| old(self)@.blocks[idx].size == old(self)@.blocks[j].size && idx <= j
                        }
                    // Its first bytes are lent.
                    &&& buffer@.ptr == old(self)@.blocks[idx].ptr
                    &&& final(self)@.blocks[idx] == (Block {
                        ptr: buffer@.ptr,
                        size: buffer@.size,
                        allocated: true,
                    })
                    &&& if rounded(size_bytes as nat) > 0 && old(self)@.blocks[idx].size > rounded(
                        size_bytes as nat,
                    ) + 512 && old(self)@.blocks[idx].ptr + rounded(size_bytes as nat)
                        <= usize::MAX {
                        &&& buffer@.size == rounded(size_bytes as nat)
                        &&& final(self)@.blocks.len() == old(self)@.blocks.len() + 1
                        &&& final(self)@.blocks.last().ptr == buffer@.ptr + buffer@.size
                        &&& final(self)@.blocks.last().size == old(self)@.blocks[idx].size
                            - buffer@.size
                        &&& !final(self)@.blocks.last().allocated
                    } else {
                        &&& buffer@.size == old(self)@.blocks[idx].size
                        &&& final(self)@.blocks.len() == old(self)@.blocks.len()
                    }
                    // Nothing else changes.
                    &&& forall|i: int|
                        0 <= i < old(self)@.blocks.len() && i != idx ==> final(self)@.blocks[i]
                            == #[trigger] old(self)@.blocks[i]
                    &&& final(self)@.current_in_use == old(self)@.current_in_use + buffer@.size
                    &&& final(self)@.total_allocated == old(self)@.total_allocated
                    &&& final(self)@.num_alloc_calls == old(self)@.num_alloc_calls
                    &&& final(self)@.supplied == old(self)@.supplied
                },
                Acquisition::Allocate(size) => {
                    &&& none_fits(old(self)@.blocks, rounded(size_bytes as nat))
                    &&& final(self)@ == old(self)@
                    &&& size == rounded(size_bytes as nat)
                    // Every block is borrowed or too small.
                    &&& forall|j: int|
                        0 <= j < old(self)@.blocks.len() ==> (
                        #[trigger] old(self)@.blocks[j]).allocated || old(self)@.blocks[j].size
                            < size
                },
            },
    {
        let rounded_size: usize = round_size(size_bytes);

        if let Some(block_idx) = self.find_free_block(rounded_size) {
            let block = self.blocks[block_idx];
            let remaining: usize = block.size - rounded_size;

            // Split a block that is much larger.
            if rounded_size > 0 && remaining > SMALL_ROUND && rounded_size <= usize::MAX
                - block.ptr {
                return Acquisition::Ready(self.use_split_block(block_idx, rounded_size, remaining));
            }
            // Lend any other block whole.
            proof {
                let step = Step::Reuse { idx: block_idx as nat };
                law_step_keeps_valid(self@, step);
                law_in_use_at_most_total(self@.after(step));
            }
            self.blocks[block_idx].allocated = true;
            self.current_in_use = self.current_in_use + block.size;

            return Acquisition::Ready(
                PooledBuffer { ptr: block.ptr, size: block.size, block_idx },
            );
        }
        // No suitable block: the device has to supply one.
        Acquisition::Allocate(rounded_size)
    }

    /// Takes what came of the device's allocation of `size` bytes.
    ///
    /// Memory at an address becomes a block of the pool, and is borrowed at once. A refusal, with
    /// the reason for it, leaves the pool as it is.
    pub fn allocate_new_block(
        &mut self,
        size: usize,
        outcome: std::result::Result<usize, String>,
    ) -> (result: Result<PooledBuffer>)
        requires
            old(self).wf(),
            outcome is Ok ==> old(self)@.total_allocated + size <= usize::MAX,
        ensures
            final(self).wf(),
            match outcome {
                Ok(ptr) => {
                    &&& result matches Ok(buffer) && buffer@ == (Handle {
                        ptr,
                        size,
                        block_idx: old(self)@.blocks.len(),
                    })
                    &&& final(self)@ == old(self)@.grow(ptr, size)
                    &&& final(self)@.blocks == old(self)@.blocks.push(
                        Block { ptr, size, allocated: true },
                    )
                    &&& final(self)@.total_allocated == old(self)@.total_allocated + size
                    &&& final(self)@.current_in_use == old(self)@.current_in_use + size
                    &&& final(self)@.num_alloc_calls == old(self)@.num_alloc_calls + 1
                    &&& final(self)@.supplied == old(self)@.supplied.push(ptr)
                },
                Err(reason) => {
                    &&& result matches Err(MahoutError::MemoryAllocation(message)) && message@
                        == allocation_failure(size as nat, reason@) && message@
                        == "Failed to allocate "@ + decimal(size as nat) + " bytes: "@ + reason@
                    &&& final(self)@ == old(self)@
                },
            },
    {
        let ptr: usize = match outcome {
            Ok(ptr) => ptr,
            Err(reason) => {
                return Err(allocation_error(size, reason.as_str()));
            },
        };

        proof {
            law_in_use_at_most_total(self@);
            law_step_keeps_valid(self@, Step::Grow { ptr, size });
        }
        let block_idx: usize = self.blocks.len();
        self.blocks.push(Block { ptr, size, allocated: true });

        assert(self.blocks.len() == block_idx + 1);
        self.total_allocated = self.total_allocated + size;
        self.current_in_use = self.current_in_use + size;
        self.num_alloc_calls = self.num_alloc_calls + 1;
        self.supplied.push(ptr);

        Ok(PooledBuffer { ptr, size, block_idx })
    }

    /// Gives a buffer back to the pool.
    ///
    /// A buffer whose index the pool does not have, or whose block is free already, changes
    /// nothing.
    pub fn release(&mut self, buffer: PooledBuffer) -> (outcome: Release)
        requires
            old(self).wf(),
        ensures
            final(self).wf(),
            match outcome {
                Release::Released { bytes } => {
                    let idx = buffer@.block_idx as int;
                    &&& old(self)@.is_borrowed(idx)
                    &&& bytes == old(self)@.blocks[idx].size
                    &&& final(self)@ == old(self)@.release(idx)
                    &&& 0 <= idx < old(self)@.blocks.len()
                    &&& old(self)@.blocks[idx].allocated
                    &&& final(self)@.blocks == old(self)@.blocks.update(
                        idx,
                        Block {
                            ptr: old(self)@.blocks[idx].ptr,
                            size: old(self)@.blocks[idx].size,
                            allocated: false,
                        },
                    )
                    &&& final(self)@.current_in_use + bytes == old(self)@.current_in_use
                    &&& final(self)@.total_allocated == old(self)@.total_allocated
                    &&& final(self)@.num_alloc_calls == old(self)@.num_alloc_calls
                    &&& final(self)@.supplied == old(self)@.supplied
                },
                Release::InvalidIndex { block_idx } => {
                    &&& block_idx == buffer@.block_idx
                    &&& block_idx >= old(self)@.blocks.len()
                    &&& final(self)@ == old(self)@
                },
                Release::DoubleFree { block_idx } => {
                    &&& block_idx == buffer@.block_idx
                    &&& old(self)@.is_free(block_idx as int)
                    &&& block_idx < old(self)@.blocks.len()
                    &&& !old(self)@.blocks[block_idx as int].allocated
                    &&& final(self)@ == old(self)@
                },
            },
    {
        let block_idx: usize = buffer.block_idx;

        if block_idx >= self.blocks.len() {
            return Release::InvalidIndex { block_idx };
        }
        if !self.blocks[block_idx].allocated {
            return Release::DoubleFree { block_idx };
        }
        proof {
            lemma_borrowed_block_counted(self.blocks@, block_idx as int);
            law_step_keeps_valid(self@, Step::Release { idx: block_idx as nat });
        }
        let bytes: usize = self.blocks[block_idx].size;
        self.blocks[block_idx].allocated = false;
        self.current_in_use = self.current_in_use - bytes;
        Release::Released { bytes }
    }

    /// Finds the best fit: the smallest free block of at least `size` bytes, and the first one
    /// among those of that size.
    pub fn find_free_block(&self, size: usize) -> (found: Option<usize>)
        ensures
            match found {
                Some(idx) => {
                    &&& is_best_fit(self@.blocks, size as nat, idx as int)
                    &&& idx < self@.blocks.len()
                    &&& !self@.blocks[idx as int].allocated
                    &&& self@.blocks[idx as int].size >= size
                    &&& forall|j: int|
                        0 <= j < self@.blocks.len() && !(#[trigger] self@.blocks[j]).allocated
                            && self@.blocks[j].size >= size ==> {
                            ||| self@.blocks[idx as int].size < self@.blocks[j].size
                            ||| self@.blocks[idx as int].size == self@.blocks[j].size && idx <= j
                        }
                },
                None => {
                    &&& none_fits(self@.blocks, size as nat)
                    &&& forall|j: int|
                        0 <= j < self@.blocks.len() ==> (#[trigger] self@.blocks[j]).allocated
                            || self@.blocks[j].size < size
                },
            },
    {
        let mut best: Option<usize> = None;
        let mut i: usize = 0;
        while i < self.blocks.len()
            invariant
                i <= self.blocks.len(),
                match best {
                    Some(k) => is_best_fit(self.blocks@.take(i as int), size as nat, k as int),
                    None => none_fits(self.blocks@.take(i as int), size as nat),
                },
            decreases self.blocks.len() - i,
        {
            let ghost seen = self.blocks@.take(i as int);
            let block = self.blocks[i];
            assert(self.blocks@.take(i + 1) == seen.push(block));
            if !block.allocated && block.size >= size {
                match best {
                    Some(k) => {
                        if block.size < self.blocks[k].size {
                            best = Some(i);
                        }
                    },
                    None => {
                        best = Some(i);
                    },
                }
            }
            i = i + 1;
        }
        assert(self.blocks@.take(i as int) == self.blocks@);
        proof {
            if let Some(idx) = best {
                law_smallest_free_block_serves(self@.blocks, size as nat, idx as int);
            }
            law_device_is_asked_only_when_needed(self@.blocks, size as nat);
        }
        best
    }

    /// Finds the first free block that is so much larger than `size` bytes that it can be split,
    /// and tells how many bytes a split would leave.
    ///
    /// Where there is a free block, the sum `size + SMALL_ROUND` must be representable.
    pub fn try_split_block(&self, size: usize) -> (found: Option<(usize, usize)>)
        requires
            size + SMALL_ROUND <= usize::MAX || none_free(self@.blocks),
        ensures
            match found {
                Some((idx, remaining)) => {
                    &&& is_first_splittable(self@.blocks, size as nat, idx as int)
                    &&& remaining == self@.blocks[idx as int].size - size
                    &&& idx < self@.blocks.len()
                    &&& !self@.blocks[idx as int].allocated
                    &&& self@.blocks[idx as int].size > size + 512
                    &&& forall|j: int|
                        0 <= j < idx ==> (#[trigger] self@.blocks[j]).allocated
                            || self@.blocks[j].size <= size + 512
                },
                None => {
                    &&& none_splittable(self@.blocks, size as nat)
                    &&& forall|j: int|
                        0 <= j < self@.blocks.len() ==> (#[trigger] self@.blocks[j]).allocated
                            || self@.blocks[j].size <= size + 512
                },
            },
    {
        let mut i: usize = 0;
        while i < self.blocks.len()
            invariant
                i <= self.blocks.len(),
                size + SMALL_ROUND <= usize::MAX || none_free(self.blocks@),
                none_splittable(self.blocks@.take(i as int), size as nat),
            decreases self.blocks.len() - i,
        {
            let block = self.blocks[i];
            assert(self.blocks@.take(i + 1) == self.blocks@.take(i as int).push(block));
            if !block.allocated && block.size > size + SMALL_ROUND {
                let remaining: usize = block.size - size;
                assert forall|j: int| 0 <= j < i implies !(#[trigger] self@.blocks[j]).can_split(
                    size as nat,
                ) by {
                    assert(self.blocks@.take(i as int)[j] == self.blocks@[j]);
                }
                proof {
                    law_split_needs_a_free_block_with_room(self@.blocks, size as nat, i as int);
                }
                return Some((i, remaining));
            }
            i = i + 1;
        }
        assert(self.blocks@.take(i as int) == self.blocks@);
        proof {
            law_split_needs_a_free_block_with_room(self@.blocks, size as nat, i as int);
        }
        None
    }

    /// Splits free block `idx` into a borrowed one of `size` bytes, followed by a free one of
    /// `remaining` bytes.
    pub fn use_split_block(&mut self, idx: usize, size: usize, remaining: usize) -> (buffer:
        PooledBuffer)
        requires
            old(self).wf(),
            old(self)@.is_free(idx as int),
            size + remaining == old(self)@.blocks[idx as int].size,
            old(self)@.blocks[idx as int].ptr + size <= usize::MAX,
        ensures
            final(self).wf(),
            final(self)@ == old(self)@.split(idx as int, size),
            buffer@ == (Handle {
                ptr: old(self)@.blocks[idx as int].ptr,
                size,
                block_idx: idx as nat,
            }),
            final(self)@.blocks.len() == old(self)@.blocks.len() + 1,
            final(self)@.blocks[idx as int] == (Block {
                ptr: old(self)@.blocks[idx as int].ptr,
                size,
                allocated: true,
            }),
            final(self)@.blocks.last().ptr == old(self)@.blocks[idx as int].ptr + size,
            final(self)@.blocks.last().size == remaining,
            !final(self)@.blocks.last().allocated,
            forall|i: int|
                0 <= i < old(self)@.blocks.len() && i != idx ==> final(self)@.blocks[i]
                    == #[trigger] old(self)@.blocks[i],
            final(self)@.current_in_use == old(self)@.current_in_use + size,
            final(self)@.total_allocated == old(self)@.total_allocated,
            final(self)@.num_alloc_calls == old(self)@.num_alloc_calls,
            final(self)@.supplied == old(self)@.supplied,
    {
        let original_ptr: usize = self.blocks[idx].ptr;

        proof {
            let step = Step::Split { idx: idx as nat, size };
            law_step_keeps_valid(self@, step);
            law_in_use_at_most_total(self@.after(step));
        }
        // First part: borrowed.
        self.blocks[idx].size = size;
        self.blocks[idx].allocated = true;

        // Second part: free.
        let new_ptr: usize = original_ptr + size;
        self.blocks.push(Block { ptr: new_ptr, size: remaining, allocated: false });

        self.current_in_use = self.current_in_use + size;

        assert(self@ =~= old(self)@.split(idx as int, size));
        PooledBuffer { ptr: original_ptr, size, block_idx: idx }
    }

    /// The addresses to give back to the device when the pool goes away: those that it has
    /// supplied, in the order in which it did. The parts of a split block go back with the whole.
    pub fn supplied_ptrs(&self) -> (ptrs: Vec<usize>)
        ensures
            ptrs@ == self@.supplied,
    {
        let mut ptrs: Vec<usize> = Vec::new();
        let mut i: usize = 0;
        while i < self.supplied.len()
            invariant
                i <= self.supplied.len(),
                ptrs@ == self.supplied@.take(i as int),
            decreases self.supplied.len() - i,
        {
            ptrs.push(self.supplied[i]);
            i = i + 1;
        }
        ptrs
    }

    /// Size in bytes of block `idx`, where the pool has it.
    pub fn block_size(&self, idx: usize) -> (size: Option<usize>)
        ensures
            size == if idx < self@.blocks.len() {
                Some(self@.blocks[idx as int].size)
            } else {
                None
            },
    {
        if idx < self.blocks.len() {
            Some(self.blocks[idx].size)
        } else {
            None
        }
    }

    /// The address of every block, in the order of the blocks.
    pub fn block_ptrs(&self) -> (ptrs: Vec<usize>)
        ensures
            ptrs@ == self@.blocks.map_values(|block: Block| block.ptr),
            ptrs@.len() == self@.blocks.len(),
            forall|i: int| 0 <= i < ptrs@.len() ==> #[trigger] ptrs@[i] == self@.blocks[i].ptr,
    {
        let mut ptrs: Vec<usize> = Vec::new();
        let mut i: usize = 0;
        while i < self.blocks.len()
            invariant
                i <= self.blocks.len(),
                ptrs@ == self.blocks@.take(i as int).map_values(|block: Block| block.ptr),
            decreases self.blocks.len() - i,
        {
            ptrs.push(self.blocks[i].ptr);
            i = i + 1;
        }
        assert(self.blocks@.take(i as int) == self.blocks@);
        ptrs
    }
}

} // verus!
