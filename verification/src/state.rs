//! The mathematical model of the pool: its blocks, its counters and the steps that change them.

use crate::rounding::SMALL_ROUND;
use vstd::prelude::*;

verus! {

/// A block of device memory in the pool.
#[derive(Debug, Clone, Copy)]
pub struct Block {
    /// Device address of the first byte.
    pub ptr: usize,
    /// Size in bytes.
    pub size: usize,
    /// Whether the block is borrowed.
    pub allocated: bool,
}

/// The bytes of all blocks together.
pub open spec fn reserved_bytes(blocks: Seq<Block>) -> nat
    decreases blocks.len(),
{
    if blocks.len() == 0 {
        0
    } else {
        reserved_bytes(blocks.drop_last()) + blocks.last().size as nat
    }
}

/// The bytes of the borrowed blocks together.
pub open spec fn borrowed_bytes(blocks: Seq<Block>) -> nat
    decreases blocks.len(),
{
    if blocks.len() == 0 {
        0
    } else {
        borrowed_bytes(blocks.drop_last()) + blocks.last().bytes_in_use()
    }
}

impl Block {
    /// The bytes that this block adds to those in use.
    pub open spec fn bytes_in_use(self) -> nat {
        if self.allocated {
            self.size as nat
        } else {
            0
        }
    }

    /// Whether the block is free and holds at least `size` bytes.
    pub open spec fn fits(self, size: nat) -> bool {
        !self.allocated && self.size >= size
    }

    /// Whether the block is free and so much larger than `size` bytes that it can be split.
    pub open spec fn can_split(self, size: nat) -> bool {
        !self.allocated && self.size > size + SMALL_ROUND
    }

    /// Whether `addr` is the address of one of the block's bytes.
    pub open spec fn covers(self, addr: int) -> bool {
        self.ptr <= addr < self.ptr + self.size
    }

    /// Whether the two blocks have no byte in common.
    pub open spec fn disjoint(self, other: Block) -> bool {
        forall|addr: int| !(#[trigger] self.covers(addr) && other.covers(addr))
    }
}

/// Whether no block fits a request of `size` bytes.
pub open spec fn none_fits(blocks: Seq<Block>, size: nat) -> bool {
    forall|j: int| 0 <= j < blocks.len() ==> !(#[trigger] blocks[j]).fits(size)
}

/// Whether block `i` is the best fit for `size` bytes: the smallest block that fits, and the
/// first one of that size.
pub open spec fn is_best_fit(blocks: Seq<Block>, size: nat, i: int) -> bool {
    &&& 0 <= i < blocks.len()
    &&& blocks[i].fits(size)
    &&& forall|j: int|
        0 <= j < blocks.len() && (#[trigger] blocks[j]).fits(size) ==> {
            &&& blocks[i].size <= blocks[j].size
            &&& blocks[i].size == blocks[j].size ==> i <= j
        }
}

/// Whether block `i` is the first one that can be split for `size` bytes.
pub open spec fn is_first_splittable(blocks: Seq<Block>, size: nat, i: int) -> bool {
    &&& 0 <= i < blocks.len()
    &&& blocks[i].can_split(size)
    &&& forall|j: int| 0 <= j < i ==> !(#[trigger] blocks[j]).can_split(size)
}

/// Whether no block can be split for `size` bytes.
pub open spec fn none_splittable(blocks: Seq<Block>, size: nat) -> bool {
    forall|j: int| 0 <= j < blocks.len() ==> !(#[trigger] blocks[j]).can_split(size)
}

/// Whether every block is borrowed.
pub open spec fn none_free(blocks: Seq<Block>) -> bool {
    forall|j: int| 0 <= j < blocks.len() ==> (#[trigger] blocks[j]).allocated
}

/// Whether no two blocks have a byte in common.
pub open spec fn pairwise_disjoint(blocks: Seq<Block>) -> bool {
    forall|i: int, j: int|
        0 <= i < j < blocks.len() ==> (#[trigger] blocks[i]).disjoint(#[trigger] blocks[j])
}

/// What a borrowed buffer refers to.
pub struct Handle {
    /// Device address of the first byte.
    pub ptr: usize,
    /// Size in bytes.
    pub size: usize,
    /// Index of the block in the pool.
    pub block_idx: nat,
}

/// The state of a pool.
#[verifier::ext_equal]
pub struct PoolState {
    /// All blocks, free and borrowed, in the order in which they came into being.
    pub blocks: Seq<Block>,
    /// Bytes obtained from the device so far.
    pub total_allocated: nat,
    /// Bytes that are borrowed.
    pub current_in_use: nat,
    /// Number of allocations that the device has served.
    pub num_alloc_calls: nat,
    /// The addresses that the device has supplied, in the order in which it did.
    pub supplied: Seq<usize>,
}

/// A change of a pool's state.
pub enum Step {
    /// Free block `idx` is borrowed as it is.
    Reuse { idx: nat },
    /// Free block `idx` is split; its first `size` bytes are borrowed.
    Split { idx: nat, size: usize },
    /// The device has supplied `size` bytes at `ptr`, which are borrowed.
    Grow { ptr: usize, size: usize },
    /// Borrowed block `idx` is given back.
    Release { idx: nat },
}

impl PoolState {
    /// The state of a new pool.
    pub open spec fn empty() -> PoolState {
        PoolState {
            blocks: Seq::empty(),
            total_allocated: 0,
            current_in_use: 0,
            num_alloc_calls: 0,
            supplied: Seq::empty(),
        }
    }

    /// The counters agree with the blocks, and the bytes are few enough to be counted.
    pub open spec fn valid(self) -> bool {
        &&& self.total_allocated == reserved_bytes(self.blocks)
        &&& self.current_in_use == borrowed_bytes(self.blocks)
        &&& self.num_alloc_calls == self.supplied.len()
        &&& self.num_alloc_calls <= self.blocks.len()
        &&& self.total_allocated <= usize::MAX
    }

    /// The state after free block `idx` was borrowed as it is.
    pub open spec fn reuse(self, idx: int) -> PoolState {
        let block = self.blocks[idx];
        PoolState {
            blocks: self.blocks.update(idx, Block { allocated: true, ..block }),
            current_in_use: self.current_in_use + block.size as nat,
            ..self
        }
    }

    /// The state after free block `idx` was split. Its first `size` bytes are borrowed; the rest
    /// is a new free block.
    pub open spec fn split(self, idx: int, size: usize) -> PoolState {
        let block = self.blocks[idx];
        PoolState {
            blocks: self.blocks.update(
                idx,
                Block { ptr: block.ptr, size, allocated: true },
            ).push(
                Block {
                    ptr: (block.ptr + size) as usize,
                    size: (block.size - size) as usize,
                    allocated: false,
                },
            ),
            current_in_use: self.current_in_use + size as nat,
            ..self
        }
    }

    /// Whether free block `idx` is split to serve a request for `size` bytes: it is much larger,
    /// the request is not empty, and the address of the rest can be represented.
    pub open spec fn splits_for(self, idx: int, size: usize) -> bool {
        &&& size > 0
        &&& self.blocks[idx].can_split(size as nat)
        &&& self.blocks[idx].ptr + size <= usize::MAX
    }

    /// The state after free block `idx` served a request for `size` bytes, split or as it is.
    pub open spec fn serve(self, idx: int, size: usize) -> PoolState {
        if self.splits_for(idx, size) {
            self.split(idx, size)
        } else {
            self.reuse(idx)
        }
    }

    /// The state after the device supplied `size` bytes at `ptr`, which are borrowed.
    pub open spec fn grow(self, ptr: usize, size: usize) -> PoolState {
        PoolState {
            blocks: self.blocks.push(Block { ptr, size, allocated: true }),
            total_allocated: self.total_allocated + size as nat,
            current_in_use: self.current_in_use + size as nat,
            num_alloc_calls: self.num_alloc_calls + 1,
            supplied: self.supplied.push(ptr),
        }
    }

    /// The state after borrowed block `idx` was given back.
    pub open spec fn release(self, idx: int) -> PoolState {
        let block = self.blocks[idx];
        PoolState {
            blocks: self.blocks.update(idx, Block { allocated: false, ..block }),
            current_in_use: (self.current_in_use - block.size) as nat,
            ..self
        }
    }

    /// Whether `idx` is the index of a free block.
    pub open spec fn is_free(self, idx: int) -> bool {
        0 <= idx < self.blocks.len() && !self.blocks[idx].allocated
    }

    /// Whether `idx` is the index of a borrowed block.
    pub open spec fn is_borrowed(self, idx: int) -> bool {
        0 <= idx < self.blocks.len() && self.blocks[idx].allocated
    }

    /// Whether `step` can be taken.
    pub open spec fn enables(self, step: Step) -> bool {
        match step {
            Step::Reuse { idx } => self.is_free(idx as int),
            Step::Split { idx, size } => {
                &&& self.is_free(idx as int)
                &&& size <= self.blocks[idx as int].size
                &&& self.blocks[idx as int].ptr + size <= usize::MAX
            },
            Step::Grow { size, .. } => self.total_allocated + size <= usize::MAX,
            Step::Release { idx } => self.is_borrowed(idx as int),
        }
    }

    /// The state after `step`.
    pub open spec fn after(self, step: Step) -> PoolState {
        match step {
            Step::Reuse { idx } => self.reuse(idx as int),
            Step::Split { idx, size } => self.split(idx as int, size),
            Step::Grow { ptr, size } => self.grow(ptr, size),
            Step::Release { idx } => self.release(idx as int),
        }
    }

    /// Whether the steps can be taken one after the other.
    pub open spec fn enables_all(self, steps: Seq<Step>) -> bool
        decreases steps.len(),
    {
        steps.len() > 0 ==> {
            &&& self.enables_all(steps.drop_last())
            &&& self.after_all(steps.drop_last()).enables(steps.last())
        }
    }

    /// The state after the steps were taken one after the other.
    pub open spec fn after_all(self, steps: Seq<Step>) -> PoolState
        decreases steps.len(),
    {
        if steps.len() == 0 {
            self
        } else {
            self.after_all(steps.drop_last()).after(steps.last())
        }
    }

    /// The handle on block `idx`.
    pub open spec fn handle(self, idx: int) -> Handle {
        Handle {
            ptr: self.blocks[idx].ptr,
            size: self.blocks[idx].size,
            block_idx: idx as nat,
        }
    }

    /// Whether `handle` refers to a borrowed block and describes it.
    pub open spec fn is_live(self, handle: Handle) -> bool {
        &&& self.is_borrowed(handle.block_idx as int)
        &&& handle == self.handle(handle.block_idx as int)
    }
}

pub(crate) proof fn lemma_bytes_push(blocks: Seq<Block>, block: Block)
    ensures
        reserved_bytes(blocks.push(block)) == reserved_bytes(blocks) + block.size,
        borrowed_bytes(blocks.push(block)) == borrowed_bytes(blocks) + block.bytes_in_use(),
{
    assert(blocks.push(block).drop_last() == blocks);
}

pub(crate) proof fn lemma_bytes_update(blocks: Seq<Block>, i: int, block: Block)
    requires
        0 <= i < blocks.len(),
    ensures
        reserved_bytes(blocks.update(i, block)) == reserved_bytes(blocks) - blocks[i].size
            + block.size,
        borrowed_bytes(blocks.update(i, block)) == borrowed_bytes(blocks)
            - blocks[i].bytes_in_use() + block.bytes_in_use(),
    decreases blocks.len(),
{
    let updated = blocks.update(i, block);
    if i == blocks.len() - 1 {
        assert(updated.drop_last() == blocks.drop_last());
    } else {
        lemma_bytes_update(blocks.drop_last(), i, block);
        assert(updated.drop_last() == blocks.drop_last().update(i, block));
        assert(updated.last() == blocks.last());
    }
}

pub(crate) proof fn lemma_borrowed_at_most_reserved(blocks: Seq<Block>)
    ensures
        borrowed_bytes(blocks) <= reserved_bytes(blocks),
    decreases blocks.len(),
{
    if blocks.len() > 0 {
        lemma_borrowed_at_most_reserved(blocks.drop_last());
    }
}

/// The bytes of a borrowed block are part of the bytes of all borrowed blocks.
pub(crate) proof fn lemma_borrowed_block_counted(blocks: Seq<Block>, i: int)
    requires
        0 <= i < blocks.len(),
        blocks[i].allocated,
    ensures
        blocks[i].size <= borrowed_bytes(blocks),
    decreases blocks.len(),
{
    if i < blocks.len() - 1 {
        lemma_borrowed_block_counted(blocks.drop_last(), i);
    }
}

} // verus!
