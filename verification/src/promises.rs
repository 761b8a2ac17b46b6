//! What the operations promise, stated on the fields of the blocks and on plain numbers.

use crate::error::{allocation_failure, decimal};
use crate::rounding::rounded;
use crate::state::{
    borrowed_bytes, is_best_fit, is_first_splittable, lemma_bytes_push, none_fits, none_free,
    none_splittable, pairwise_disjoint, reserved_bytes, Block, Handle, PoolState, Step,
};
use vstd::prelude::*;

verus! {

/// A request of up to 1 MB is rounded up to a multiple of 512 bytes, a larger one to a multiple of
/// 2 MB, each by less than one such unit.
pub proof fn law_rounded_in_numbers(bytes: nat)
    ensures
        bytes <= rounded(bytes),
        bytes <= 1048576 ==> rounded(bytes) % 512 == 0 && rounded(bytes) < bytes + 512,
        bytes > 1048576 ==> rounded(bytes) % 2097152 == 0 && rounded(bytes) < bytes + 2097152,
{
}

/// The block that serves a request is free and holds the bytes that were asked for. It is borrowed
/// afterwards.
pub proof fn law_lent_block_was_free(s: PoolState, bytes: nat, size: usize, idx: int)
    requires
        size == rounded(bytes),
        is_best_fit(s.blocks, rounded(bytes), idx),
    ensures
        0 <= idx < s.blocks.len(),
        !s.blocks[idx].allocated,
        s.blocks[idx].size >= bytes,
        s.serve(idx, size).blocks[idx].allocated,
        s.serve(idx, size).blocks[idx].size >= bytes,
{
    law_rounded_in_numbers(bytes);
}

/// To serve a request leaves every borrowed block as it is, and lends out none of them.
pub proof fn law_serving_keeps_borrowed_blocks(s: PoolState, size: usize, idx: int, i: int)
    requires
        is_best_fit(s.blocks, size as nat, idx),
        0 <= i < s.blocks.len(),
        s.blocks[i].allocated,
    ensures
        i != idx,
        s.serve(idx, size).blocks[i] == s.blocks[i],
{
}

/// The block that serves a request is the smallest of all free blocks that are large enough, for
/// small requests as for large ones, and the first one of that size. Being free and large enough
/// is all that it takes to be considered.
pub proof fn law_smallest_free_block_serves(blocks: Seq<Block>, size: nat, i: int)
    ensures
        is_best_fit(blocks, size, i) <==> {
            &&& 0 <= i < blocks.len()
            &&& !blocks[i].allocated
            &&& blocks[i].size >= size
            &&& forall|j: int|
                0 <= j < blocks.len() && !(#[trigger] blocks[j]).allocated && blocks[j].size
                    >= size ==> {
                    ||| blocks[i].size < blocks[j].size
                    ||| blocks[i].size == blocks[j].size && i <= j
                }
        },
{
    if 0 <= i < blocks.len() && !blocks[i].allocated && blocks[i].size >= size && (forall|j: int|
        0 <= j < blocks.len() && !(#[trigger] blocks[j]).allocated && blocks[j].size >= size ==> {
            ||| blocks[i].size < blocks[j].size
            ||| blocks[i].size == blocks[j].size && i <= j
        }) {
        assert(blocks[i].fits(size));
        assert(is_best_fit(blocks, size, i));
    }
    if is_best_fit(blocks, size, i) {
        assert forall|j: int|
            0 <= j < blocks.len() && !(#[trigger] blocks[j]).allocated && blocks[j].size
                >= size implies {
            ||| blocks[i].size < blocks[j].size
            ||| blocks[i].size == blocks[j].size && i <= j
        } by {
            assert(blocks[j].fits(size));
        }
    }
}

/// The device is asked for memory exactly when every block is borrowed or too small.
pub proof fn law_device_is_asked_only_when_needed(blocks: Seq<Block>, size: nat)
    ensures
        none_fits(blocks, size) <==> forall|j: int|
            0 <= j < blocks.len() ==> (#[trigger] blocks[j]).allocated || blocks[j].size < size,
{
    if none_fits(blocks, size) {
        assert forall|j: int| 0 <= j < blocks.len() implies (#[trigger] blocks[j]).allocated
            || blocks[j].size < size by {
            assert(!blocks[j].fits(size));
        }
    }
}

/// What is given back serves again: once a block of at least `size` bytes is given back, a request
/// for that many bytes does not reach the device.
pub proof fn law_released_memory_serves(s: PoolState, idx: int, size: nat)
    requires
        0 <= idx < s.blocks.len(),
        s.blocks[idx].size >= size,
    ensures
        !none_fits(s.release(idx).blocks, size),
{
    let released = s.release(idx).blocks;
    law_device_is_asked_only_when_needed(released, size);
    assert(!released[idx].allocated && released[idx].size >= size);
}

/// Of two requests to one pool, the larger is not served by a smaller block.
pub proof fn law_larger_requests_get_larger_blocks(
    blocks: Seq<Block>,
    small: nat,
    large: nat,
    i: int,
    j: int,
)
    requires
        small <= large,
        is_best_fit(blocks, small, i),
        is_best_fit(blocks, large, j),
    ensures
        blocks[i].size <= blocks[j].size,
        blocks[i].size >= large ==> i == j,
{
    law_smallest_free_block_serves(blocks, small, i);
    law_smallest_free_block_serves(blocks, large, j);
}

/// Two requests in a row get different blocks, and the second leaves the first alone. Where the
/// blocks lay apart before, so do the two buffers.
pub proof fn law_two_requests_share_nothing(s: PoolState, n: usize, i: int, m: usize, j: int)
    requires
        is_best_fit(s.blocks, n as nat, i),
        is_best_fit(s.serve(i, n).blocks, m as nat, j),
    ensures
        i != j,
        s.serve(i, n).serve(j, m).blocks[i] == s.serve(i, n).blocks[i],
        (forall|a: int, b: int|
            0 <= a < b < s.blocks.len() ==> {
                ||| (#[trigger] s.blocks[a]).ptr + s.blocks[a].size <= (
                #[trigger] s.blocks[b]).ptr
                ||| s.blocks[b].ptr + s.blocks[b].size <= s.blocks[a].ptr
            }) ==> {
            let first = s.serve(i, n).serve(j, m).blocks[i];
            let second = s.serve(i, n).serve(j, m).blocks[j];
            first.ptr + first.size <= second.ptr || second.ptr + second.size <= first.ptr
        },
{
    let one = s.serve(i, n);
    law_smallest_free_block_serves(s.blocks, n as nat, i);
    law_smallest_free_block_serves(one.blocks, m as nat, j);
    assert(one.blocks[i].allocated);
    if j < s.blocks.len() {
        assert(one.blocks[j] == s.blocks[j]);
    }
}

/// The first block that can be split for a request is the first free one with more than 512 bytes
/// to spare; there is none exactly when every block is borrowed or has no more than that to spare.
pub proof fn law_split_needs_a_free_block_with_room(blocks: Seq<Block>, size: nat, i: int)
    ensures
        is_first_splittable(blocks, size, i) <==> {
            &&& 0 <= i < blocks.len()
            &&& !blocks[i].allocated
            &&& blocks[i].size > size + 512
            &&& forall|j: int|
                0 <= j < i ==> (#[trigger] blocks[j]).allocated || blocks[j].size <= size + 512
        },
        none_splittable(blocks, size) <==> forall|j: int|
            0 <= j < blocks.len() ==> (#[trigger] blocks[j]).allocated || blocks[j].size <= size
                + 512,
        none_free(blocks) <==> forall|j: int|
            0 <= j < blocks.len() ==> (#[trigger] blocks[j]).allocated,
{
    if is_first_splittable(blocks, size, i) {
        assert forall|j: int| 0 <= j < i implies (#[trigger] blocks[j]).allocated || blocks[j].size
            <= size + 512 by {
            assert(!blocks[j].can_split(size));
        }
    }
    if none_splittable(blocks, size) {
        assert forall|j: int| 0 <= j < blocks.len() implies (#[trigger] blocks[j]).allocated
            || blocks[j].size <= size + 512 by {
            assert(!blocks[j].can_split(size));
        }
    }
}

/// To serve a request lends the first bytes of the block: exactly as many as were asked for where
/// the block has more than 512 bytes to spare, else all of them. What is split off is one free
/// block right behind. Exactly the lent bytes come into use, and nothing else changes.
pub proof fn law_what_serving_does(s: PoolState, idx: int, size: usize, i: int)
    requires
        0 <= idx < s.blocks.len(),
        !s.blocks[idx].allocated,
        s.blocks[idx].size >= size,
    ensures
        ({
            let block = s.blocks[idx];
            let after = s.serve(idx, size);
            let lent = after.blocks[idx];
            &&& lent.ptr == block.ptr
            &&& lent.allocated
            &&& after.current_in_use == s.current_in_use + lent.size
            &&& after.total_allocated == s.total_allocated
            &&& after.num_alloc_calls == s.num_alloc_calls
            &&& after.supplied == s.supplied
            &&& 0 <= i < s.blocks.len() && i != idx ==> after.blocks[i] == s.blocks[i]
            &&& if size > 0 && block.size > size + 512 && block.ptr + size <= usize::MAX {
                &&& lent.size == size
                &&& after.blocks.len() == s.blocks.len() + 1
                &&& after.blocks.last().ptr == block.ptr + size
                &&& after.blocks.last().size == block.size - size
                &&& !after.blocks.last().allocated
            } else {
                &&& lent.size == block.size
                &&& after.blocks.len() == s.blocks.len()
            }
        }),
{
}

/// A split lends exactly the first bytes of a free block and leaves the others as one free block
/// right behind. Exactly the lent bytes come into use, and nothing else changes.
pub proof fn law_what_a_split_does(s: PoolState, idx: int, size: usize, i: int)
    requires
        0 <= idx < s.blocks.len(),
        size <= s.blocks[idx].size,
        s.blocks[idx].ptr + size <= usize::MAX,
    ensures
        ({
            let block = s.blocks[idx];
            let after = s.split(idx, size);
            &&& after.blocks.len() == s.blocks.len() + 1
            &&& after.blocks[idx] == (Block { ptr: block.ptr, size, allocated: true })
            &&& after.blocks.last().ptr == block.ptr + size
            &&& after.blocks.last().size == block.size - size
            &&& !after.blocks.last().allocated
            &&& 0 <= i < s.blocks.len() && i != idx ==> after.blocks[i] == s.blocks[i]
            &&& after.current_in_use == s.current_in_use + size
            &&& after.total_allocated == s.total_allocated
            &&& after.num_alloc_calls == s.num_alloc_calls
            &&& after.supplied == s.supplied
        }),
{
}

/// To borrow a block as it is marks it as borrowed and brings its bytes into use; nothing else
/// changes.
pub proof fn law_what_reuse_does(s: PoolState, idx: int, i: int)
    requires
        0 <= idx < s.blocks.len(),
    ensures
        ({
            let block = s.blocks[idx];
            let after = s.reuse(idx);
            &&& after.blocks.len() == s.blocks.len()
            &&& after.blocks[idx] == (Block { ptr: block.ptr, size: block.size, allocated: true })
            &&& 0 <= i < s.blocks.len() && i != idx ==> after.blocks[i] == s.blocks[i]
            &&& after.current_in_use == s.current_in_use + block.size
            &&& after.total_allocated == s.total_allocated
            &&& after.num_alloc_calls == s.num_alloc_calls
            &&& after.supplied == s.supplied
        }),
{
}

/// Memory from the device becomes one borrowed block behind all others. It counts as one
/// allocation, as obtained and as in use, and its address is kept; no other block changes.
pub proof fn law_what_an_allocation_does(s: PoolState, ptr: usize, size: usize, i: int)
    ensures
        ({
            let after = s.grow(ptr, size);
            &&& after.blocks.len() == s.blocks.len() + 1
            &&& after.blocks.last() == (Block { ptr, size, allocated: true })
            &&& 0 <= i < s.blocks.len() ==> after.blocks[i] == s.blocks[i]
            &&& after.current_in_use == s.current_in_use + size
            &&& after.total_allocated == s.total_allocated + size
            &&& after.num_alloc_calls == s.num_alloc_calls + 1
            &&& after.supplied == s.supplied.push(ptr)
        }),
{
}

/// To give a block back marks it as free, with the same address and size, and takes its bytes off
/// those in use; nothing else changes.
pub proof fn law_what_a_release_does(s: PoolState, idx: int, i: int)
    requires
        0 <= idx < s.blocks.len(),
        s.blocks[idx].size <= s.current_in_use,
    ensures
        ({
            let block = s.blocks[idx];
            let after = s.release(idx);
            &&& after.blocks.len() == s.blocks.len()
            &&& after.blocks[idx] == (Block { ptr: block.ptr, size: block.size, allocated: false })
            &&& 0 <= i < s.blocks.len() && i != idx ==> after.blocks[i] == s.blocks[i]
            &&& after.current_in_use + block.size == s.current_in_use
            &&& after.total_allocated == s.total_allocated
            &&& after.num_alloc_calls == s.num_alloc_calls
            &&& after.supplied == s.supplied
        }),
{
}

/// The bytes of the blocks add up block by block; those of the borrowed blocks are the same sum
/// with every free block left out.
pub proof fn law_bytes_add_up(blocks: Seq<Block>, block: Block)
    ensures
        reserved_bytes(Seq::empty()) == 0,
        borrowed_bytes(Seq::empty()) == 0,
        reserved_bytes(blocks.push(block)) == reserved_bytes(blocks) + block.size,
        block.allocated ==> borrowed_bytes(blocks.push(block)) == borrowed_bytes(blocks)
            + block.size,
        !block.allocated ==> borrowed_bytes(blocks.push(block)) == borrowed_bytes(blocks),
{
    lemma_bytes_push(blocks, block);
}

/// A valid pool counts the bytes of all its blocks as obtained, those of the borrowed ones as in
/// use, and one allocation for each address that the device has supplied.
pub proof fn law_valid_pool_counts_right(s: PoolState)
    requires
        s.valid(),
    ensures
        s.total_allocated == reserved_bytes(s.blocks),
        s.current_in_use == borrowed_bytes(s.blocks),
        s.num_alloc_calls == s.supplied.len(),
        s.num_alloc_calls <= s.blocks.len(),
{
}

/// A new pool has nothing, and is valid.
pub proof fn law_new_pool_has_nothing()
    ensures
        PoolState::empty().blocks.len() == 0,
        PoolState::empty().total_allocated == 0,
        PoolState::empty().current_in_use == 0,
        PoolState::empty().num_alloc_calls == 0,
        PoolState::empty().supplied.len() == 0,
        PoolState::empty().valid(),
{
}

/// A live buffer is one whose block is borrowed and has its address and its size.
pub proof fn law_live_buffer_has_its_block(s: PoolState, handle: Handle)
    ensures
        s.is_live(handle) <==> {
            &&& handle.block_idx < s.blocks.len()
            &&& s.blocks[handle.block_idx as int].allocated
            &&& s.blocks[handle.block_idx as int].ptr == handle.ptr
            &&& s.blocks[handle.block_idx as int].size == handle.size
        },
{
}

/// A block can be lent only while it is free, and given back only while it is borrowed.
pub proof fn law_only_free_blocks_are_lent(s: PoolState, idx: nat, size: usize)
    ensures
        s.enables(Step::Reuse { idx }) <==> idx < s.blocks.len() && !s.blocks[idx as int].allocated,
        s.enables(Step::Split { idx, size }) <==> {
            &&& idx < s.blocks.len()
            &&& !s.blocks[idx as int].allocated
            &&& size <= s.blocks[idx as int].size
            &&& s.blocks[idx as int].ptr + size <= usize::MAX
        },
        s.enables(Step::Release { idx }) <==> idx < s.blocks.len()
            && s.blocks[idx as int].allocated,
{
}

/// What each step leads to, and that sequences of steps are taken one by one.
pub proof fn law_steps_are_taken_one_by_one(s: PoolState, steps: Seq<Step>, step: Step)
    ensures
        s.enables_all(Seq::empty()),
        s.after_all(Seq::empty()) == s,
        s.enables_all(steps.push(step)) <==> s.enables_all(steps) && s.after_all(steps).enables(
            step,
        ),
        s.after_all(steps.push(step)) == s.after_all(steps).after(step),
        match step {
            Step::Reuse { idx } => s.after(step) == s.reuse(idx as int),
            Step::Split { idx, size } => s.after(step) == s.split(idx as int, size),
            Step::Grow { ptr, size } => s.after(step) == s.grow(ptr, size),
            Step::Release { idx } => s.after(step) == s.release(idx as int),
        },
{
    assert(steps.push(step).drop_last() =~= steps);
}

/// Pairwise disjoint blocks that hold a byte lie apart: one ends before the other begins.
pub proof fn law_disjoint_blocks_lie_apart(blocks: Seq<Block>, i: int, j: int)
    requires
        pairwise_disjoint(blocks),
        0 <= i < blocks.len(),
        0 <= j < blocks.len(),
        i != j,
        blocks[i].size > 0,
        blocks[j].size > 0,
    ensures
        blocks[i].ptr + blocks[i].size <= blocks[j].ptr || blocks[j].ptr + blocks[j].size
            <= blocks[i].ptr,
{
    let a = if i < j { blocks[i] } else { blocks[j] };
    let b = if i < j { blocks[j] } else { blocks[i] };
    assert(a.disjoint(b));
    assert(!(a.covers(a.ptr as int) && b.covers(a.ptr as int)));
    assert(!(a.covers(b.ptr as int) && b.covers(b.ptr as int)));
}

/// The decimal notation ends with the last digit, preceded by the notation of the other digits,
/// if there are any.
pub proof fn law_decimal_digit_by_digit(n: nat)
    ensures
        decimal(n).len() >= 1,
        decimal(n).last() as int == '0' as int + n % 10,
        n < 10 ==> decimal(n).len() == 1,
        n >= 10 ==> decimal(n).drop_last() == decimal(n / 10),
{
    if n >= 10 {
        assert(decimal(n).drop_last() =~= decimal(n / 10));
    }
}

/// The message of a refused allocation tells the size and the reason.
pub proof fn law_failure_message_tells_size_and_reason(size: nat, reason: Seq<char>)
    ensures
        allocation_failure(size, reason) == "Failed to allocate "@ + decimal(size) + " bytes: "@
            + reason,
{
}

} // verus!
