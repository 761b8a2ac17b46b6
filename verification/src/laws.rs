//! What holds of the pool as a whole.

use crate::rounding::{law_rounded_is_least_multiple, rounded, SMALL_ROUND};
use crate::state::{
    borrowed_bytes, is_best_fit, lemma_borrowed_at_most_reserved, lemma_borrowed_block_counted,
    lemma_bytes_push, lemma_bytes_update, none_fits, none_splittable, pairwise_disjoint, Block,
    Handle, PoolState, Step,
};
use vstd::prelude::*;

verus! {

/// At most the bytes that came from the device are in use, and the device served at most as many
/// allocations as there are blocks.
pub proof fn law_in_use_at_most_total(s: PoolState)
    requires
        s.valid(),
    ensures
        s.current_in_use <= s.total_allocated,
        s.num_alloc_calls <= s.blocks.len(),
{
    lemma_borrowed_at_most_reserved(s.blocks);
}

/// Once every buffer was given back, no byte is in use.
pub proof fn law_nothing_borrowed_nothing_in_use(s: PoolState)
    requires
        s.valid(),
        forall|i: int| 0 <= i < s.blocks.len() ==> !s.is_borrowed(i),
    ensures
        s.current_in_use == 0,
{
    assert forall|i: int| 0 <= i < s.blocks.len() implies !(#[trigger] s.blocks[i]).allocated by {
        assert(!s.is_borrowed(i));
    }
    lemma_no_borrowed_bytes(s.blocks);
}

proof fn lemma_no_borrowed_bytes(blocks: Seq<Block>)
    requires
        forall|i: int| 0 <= i < blocks.len() ==> !(#[trigger] blocks[i]).allocated,
    ensures
        borrowed_bytes(blocks) == 0,
    decreases blocks.len(),
{
    if blocks.len() > 0 {
        lemma_no_borrowed_bytes(blocks.drop_last());
    }
}

/// Every step keeps the counters in agreement with the blocks.
pub proof fn law_step_keeps_valid(s: PoolState, step: Step)
    requires
        s.valid(),
        s.enables(step),
    ensures
        s.after(step).valid(),
{
    match step {
        Step::Reuse { idx } => {
            let block = s.blocks[idx as int];
            lemma_bytes_update(s.blocks, idx as int, Block { allocated: true, ..block });
        },
        Step::Split { idx, size } => {
            let block = s.blocks[idx as int];
            let used = Block { ptr: block.ptr, size, allocated: true };
            let rest = Block {
                ptr: (block.ptr + size) as usize,
                size: (block.size - size) as usize,
                allocated: false,
            };
            lemma_bytes_update(s.blocks, idx as int, used);
            lemma_bytes_push(s.blocks.update(idx as int, used), rest);
        },
        Step::Grow { ptr, size } => {
            lemma_bytes_push(s.blocks, Block { ptr, size, allocated: true });
        },
        Step::Release { idx } => {
            let block = s.blocks[idx as int];
            lemma_borrowed_block_counted(s.blocks, idx as int);
            lemma_bytes_update(s.blocks, idx as int, Block { allocated: false, ..block });
        },
    }
}

/// In every state that a new pool can come to, the counters agree with the blocks.
pub proof fn law_reachable_states_are_valid(steps: Seq<Step>)
    requires
        PoolState::empty().enables_all(steps),
    ensures
        PoolState::empty().after_all(steps).valid(),
    decreases steps.len(),
{
    if steps.len() > 0 {
        law_reachable_states_are_valid(steps.drop_last());
        law_step_keeps_valid(PoolState::empty().after_all(steps.drop_last()), steps.last());
    }
}

/// No step lowers the bytes obtained from the device, the number of its allocations or the number
/// of blocks. Only a new allocation raises the first two, by its size and by one. Only it and a
/// split add a block, and one block each.
pub proof fn law_totals_never_decrease(s: PoolState, step: Step)
    requires
        s.enables(step),
    ensures
        s.total_allocated <= s.after(step).total_allocated,
        s.num_alloc_calls <= s.after(step).num_alloc_calls,
        s.blocks.len() <= s.after(step).blocks.len(),
        match step {
            Step::Grow { size, .. } => {
                &&& s.after(step).total_allocated == s.total_allocated + size
                &&& s.after(step).num_alloc_calls == s.num_alloc_calls + 1
                &&& s.after(step).blocks.len() == s.blocks.len() + 1
            },
            Step::Split { .. } => {
                &&& s.after(step).total_allocated == s.total_allocated
                &&& s.after(step).num_alloc_calls == s.num_alloc_calls
                &&& s.after(step).blocks.len() == s.blocks.len() + 1
            },
            _ => {
                &&& s.after(step).total_allocated == s.total_allocated
                &&& s.after(step).num_alloc_calls == s.num_alloc_calls
                &&& s.after(step).blocks.len() == s.blocks.len()
            },
        },
{
}

/// No sequence of steps lowers the bytes obtained from the device, the number of its allocations
/// or the number of blocks.
pub proof fn law_totals_never_decrease_over_time(s: PoolState, steps: Seq<Step>)
    requires
        s.enables_all(steps),
    ensures
        s.total_allocated <= s.after_all(steps).total_allocated,
        s.num_alloc_calls <= s.after_all(steps).num_alloc_calls,
        s.blocks.len() <= s.after_all(steps).blocks.len(),
    decreases steps.len(),
{
    if steps.len() > 0 {
        law_totals_never_decrease_over_time(s, steps.drop_last());
        law_totals_never_decrease(s.after_all(steps.drop_last()), steps.last());
    }
}

/// The addresses that the device has supplied, in the order in which it did.
pub open spec fn supplied_ptrs(steps: Seq<Step>) -> Seq<usize>
    decreases steps.len(),
{
    if steps.len() == 0 {
        Seq::empty()
    } else {
        match steps.last() {
            Step::Grow { ptr, .. } => supplied_ptrs(steps.drop_last()).push(ptr),
            _ => supplied_ptrs(steps.drop_last()),
        }
    }
}

/// In every state that a new pool can come to, split or not, the addresses that go back to the
/// device in the end are those that it has supplied, in order and each once.
pub proof fn law_what_was_supplied_goes_back(steps: Seq<Step>)
    requires
        PoolState::empty().enables_all(steps),
    ensures
        PoolState::empty().after_all(steps).supplied == supplied_ptrs(steps),
    decreases steps.len(),
{
    if steps.len() > 0 {
        law_what_was_supplied_goes_back(steps.drop_last());
    }
}

/// Whether `at` lists positions of blocks, strictly rising, at which the addresses `ptrs` stand in
/// order.
pub open spec fn placed_in_order(blocks: Seq<Block>, ptrs: Seq<usize>, at: Seq<int>) -> bool {
    &&& at.len() == ptrs.len()
    &&& forall|k: int|
        0 <= k < at.len() ==> 0 <= #[trigger] at[k] < blocks.len() && blocks[at[k]].ptr == ptrs[k]
    &&& forall|k: int, l: int| 0 <= k < l < at.len() ==> #[trigger] at[k] < #[trigger] at[l]
}

/// In every state that a new pool can come to, the addresses that the device has supplied are
/// those of blocks at strictly rising positions, in order: none is lost. The result tells the
/// positions.
pub proof fn law_supplied_addresses_stay_in_pool(steps: Seq<Step>) -> (at: Seq<int>)
    requires
        PoolState::empty().enables_all(steps),
    ensures
        placed_in_order(
            PoolState::empty().after_all(steps).blocks,
            supplied_ptrs(steps),
            at,
        ),
    decreases steps.len(),
{
    if steps.len() == 0 {
        Seq::empty()
    } else {
        let front = steps.drop_last();
        let before = PoolState::empty().after_all(front).blocks;
        let at = law_supplied_addresses_stay_in_pool(front);
        if steps.last() is Grow {
            at.push(before.len() as int)
        } else {
            at
        }
    }
}

/// As long as no block is split, the blocks are those that the device has supplied: their
/// addresses are the addresses that it supplied, in order and each once.
pub proof fn law_blocks_are_those_supplied_unless_split(steps: Seq<Step>)
    requires
        PoolState::empty().enables_all(steps),
        forall|i: int| 0 <= i < steps.len() ==> !(#[trigger] steps[i] is Split),
    ensures
        PoolState::empty().after_all(steps).blocks.len()
            == PoolState::empty().after_all(steps).num_alloc_calls,
        PoolState::empty().after_all(steps).blocks.map_values(|block: Block| block.ptr)
            == supplied_ptrs(steps),
    decreases steps.len(),
{
    if steps.len() > 0 {
        let front = steps.drop_last();
        assert forall|i: int| 0 <= i < front.len() implies !(#[trigger] front[i] is Split) by {
            assert(front[i] == steps[i]);
        }
        law_blocks_are_those_supplied_unless_split(front);
        law_totals_never_decrease(PoolState::empty().after_all(front), steps.last());
        assert(!(steps[steps.len() - 1] is Split));

        let before = PoolState::empty().after_all(front).blocks;
        let after = PoolState::empty().after_all(steps).blocks;
        let ptr = |block: Block| block.ptr;
        assert(before.map_values(ptr) == supplied_ptrs(front));
        assert(after.map_values(ptr) =~= supplied_ptrs(steps));
    }
}

/// Whether one of the blocks covers `addr`.
pub open spec fn some_block_covers(blocks: Seq<Block>, addr: int) -> bool {
    exists|i: int| 0 <= i < blocks.len() && (#[trigger] blocks[i]).covers(addr)
}

/// Whether the device has supplied memory that covers `addr`.
pub open spec fn supply_covers(steps: Seq<Step>, addr: int) -> bool
    decreases steps.len(),
{
    steps.len() > 0 && {
        ||| supply_covers(steps.drop_last(), addr)
        ||| steps.last() matches Step::Grow { ptr, size } && ptr <= addr < ptr + size
    }
}

/// A step keeps every byte that is in the pool, and adds those that the device supplies.
proof fn lemma_step_keeps_memory(s: PoolState, step: Step, addr: int)
    requires
        s.enables(step),
    ensures
        some_block_covers(s.after(step).blocks, addr) <==> {
            ||| some_block_covers(s.blocks, addr)
            ||| step matches Step::Grow { ptr, size } && ptr <= addr < ptr + size
        },
{
    let before = s.blocks;
    let after = s.after(step).blocks;
    if some_block_covers(before, addr) {
        let i = choose|i: int| 0 <= i < before.len() && (#[trigger] before[i]).covers(addr);
        assert(after[i].covers(addr) || after.last().covers(addr));
        assert(after.last() == after[after.len() - 1]);
    }
    if step is Grow {
        assert(after[before.len() as int].covers(addr) <==> step->ptr <= addr < step->ptr
            + step->Grow_size);
    }
    if some_block_covers(after, addr) {
        let i = choose|i: int| 0 <= i < after.len() && (#[trigger] after[i]).covers(addr);
        if i < before.len() {
            assert(before[i].covers(addr));
        } else if let Step::Split { idx, .. } = step {
            assert(before[idx as int].covers(addr));
        }
    }
}

/// The blocks cover exactly the bytes that the device has supplied, splits or not: no byte is lost
/// and none is made up.
pub proof fn law_blocks_cover_what_was_supplied(steps: Seq<Step>, addr: int)
    requires
        PoolState::empty().enables_all(steps),
    ensures
        some_block_covers(PoolState::empty().after_all(steps).blocks, addr) <==> supply_covers(
            steps,
            addr,
        ),
    decreases steps.len(),
{
    if steps.len() > 0 {
        law_blocks_cover_what_was_supplied(steps.drop_last(), addr);
        lemma_step_keeps_memory(
            PoolState::empty().after_all(steps.drop_last()),
            steps.last(),
            addr,
        );
    }
}

/// Giving back a block that was borrowed as it is restores the pool.
pub proof fn law_release_undoes_reuse(s: PoolState, idx: int)
    requires
        s.valid(),
        s.is_free(idx),
    ensures
        s.reuse(idx).is_borrowed(idx),
        s.reuse(idx).release(idx) == s,
{
    assert(s.reuse(idx).release(idx).blocks =~= s.blocks);
}

/// Giving back the first part of a split block leaves both parts free, with as many bytes in use
/// as before the split. The parts stay two blocks.
pub proof fn law_release_keeps_split_parts(s: PoolState, idx: int, size: usize)
    requires
        s.valid(),
        s.enables(Step::Split { idx: idx as nat, size }),
        0 <= idx,
    ensures
        s.split(idx, size).is_borrowed(idx),
        ({
            let block = s.blocks[idx];
            let released = s.split(idx, size).release(idx);
            &&& released.blocks == s.blocks.update(
                idx,
                Block { ptr: block.ptr, size, allocated: false },
            ).push(
                Block {
                    ptr: (block.ptr + size) as usize,
                    size: (block.size - size) as usize,
                    allocated: false,
                },
            )
            &&& released.current_in_use == s.current_in_use
            &&& released.total_allocated == s.total_allocated
            &&& released.num_alloc_calls == s.num_alloc_calls
        }),
{
    let block = s.blocks[idx];
    assert(s.split(idx, size).release(idx).blocks =~= s.blocks.update(
        idx,
        Block { ptr: block.ptr, size, allocated: false },
    ).push(
        Block {
            ptr: (block.ptr + size) as usize,
            size: (block.size - size) as usize,
            allocated: false,
        },
    ));
}

/// Giving back a block that the device has just supplied leaves it in the pool as a free block,
/// with as many bytes in use as before the allocation.
pub proof fn law_release_keeps_new_block(s: PoolState, ptr: usize, size: usize)
    requires
        s.valid(),
    ensures
        s.grow(ptr, size).is_borrowed(s.blocks.len() as int),
        ({
            let released = s.grow(ptr, size).release(s.blocks.len() as int);
            &&& released.blocks == s.blocks.push(Block { ptr, size, allocated: false })
            &&& released.current_in_use == s.current_in_use
            &&& released.total_allocated == s.total_allocated + size
        }),
{
    let released = s.grow(ptr, size).release(s.blocks.len() as int);
    assert(released.blocks =~= s.blocks.push(Block { ptr, size, allocated: false }));
}

/// A request has exactly one answer: either no block fits, or there is one best fit.
pub proof fn law_best_fit_exists_unless_none_fits(blocks: Seq<Block>, size: nat)
    ensures
        none_fits(blocks, size) <==> !exists|i: int| is_best_fit(blocks, size, i),
    decreases blocks.len(),
{
    if exists|i: int| is_best_fit(blocks, size, i) {
        let i = choose|i: int| is_best_fit(blocks, size, i);
        assert(blocks[i].fits(size));
    } else if blocks.len() > 0 {
        let front = blocks.drop_last();
        let last = blocks.len() - 1;
        law_best_fit_exists_unless_none_fits(front, size);
        if none_fits(front, size) {
            assert forall|j: int| 0 <= j < blocks.len() implies !(#[trigger] blocks[j]).fits(
                size,
            ) by {
                if j < last {
                    assert(!front[j].fits(size));
                } else if blocks[j].fits(size) {
                    assert forall|k: int|
                        0 <= k < blocks.len() && (#[trigger] blocks[k]).fits(size) implies k
                        == last by {
                        if k < last {
                            assert(!front[k].fits(size));
                        }
                    }
                    assert(is_best_fit(blocks, size, last));
                }
            }
        } else {
            let i = choose|i: int| is_best_fit(front, size, i);
            let best = if blocks[last].fits(size) && blocks[last].size < blocks[i].size {
                last
            } else {
                i
            };
            assert forall|j: int| 0 <= j < blocks.len() && (#[trigger] blocks[j]).fits(size) implies {
                &&& blocks[best].size <= blocks[j].size
                &&& blocks[best].size == blocks[j].size ==> best <= j
            } by {
                if j < last {
                    assert(front[j].fits(size));
                }
            }
            assert(is_best_fit(blocks, size, best));
        }
    }
}

/// No two blocks are the best fit for one request.
pub proof fn law_best_fit_is_unique(blocks: Seq<Block>, size: nat, i: int, j: int)
    requires
        is_best_fit(blocks, size, i),
        is_best_fit(blocks, size, j),
    ensures
        i == j,
{
    assert(blocks[i].fits(size) && blocks[j].fits(size));
}

/// A request that no block fits could not be served by a split either: best fit misses no block
/// that can be split.
pub proof fn law_best_fit_misses_no_split(blocks: Seq<Block>, size: nat)
    requires
        none_fits(blocks, size),
    ensures
        none_splittable(blocks, size),
{
    assert forall|j: int| 0 <= j < blocks.len() implies !(#[trigger] blocks[j]).can_split(size) by {
        assert(!blocks[j].fits(size));
    }
}

/// To serve a request is to take one step, a split or the reuse of a whole block.
pub proof fn law_serving_is_a_step(s: PoolState, idx: nat, size: usize)
    requires
        s.is_free(idx as int),
    ensures
        ({
            let split = Step::Split { idx, size };
            let reuse = Step::Reuse { idx };
            ||| s.enables(split) && s.serve(idx as int, size) == s.after(split)
            ||| s.enables(reuse) && s.serve(idx as int, size) == s.after(reuse)
        }),
{
}

/// A buffer that was served by a whole free block and given back is what the same request is
/// served with again: the same block, without an allocation.
pub proof fn law_released_block_is_reused(s: PoolState, bytes: nat, idx: int)
    requires
        s.valid(),
        is_best_fit(s.blocks, rounded(bytes), idx),
    ensures
        ({
            let released = s.reuse(idx).release(idx);
            &&& is_best_fit(released.blocks, rounded(bytes), idx)
            &&& released.handle(idx) == s.handle(idx)
            &&& forall|other: int|
                is_best_fit(released.blocks, rounded(bytes), other) ==> other == idx
        }),
{
    law_release_undoes_reuse(s, idx);
    assert forall|other: int| is_best_fit(s.blocks, rounded(bytes), other) implies other == idx by {
        law_best_fit_is_unique(s.blocks, rounded(bytes), other, idx);
    }
}

/// A buffer that was split off a free block and given back is what the same request is served with
/// again: the same part, whole, without an allocation or another split.
pub proof fn law_released_split_block_is_reused(s: PoolState, bytes: nat, idx: int, size: usize)
    requires
        s.valid(),
        size == rounded(bytes),
        is_best_fit(s.blocks, rounded(bytes), idx),
        s.blocks[idx].can_split(rounded(bytes)),
        s.blocks[idx].ptr + size <= usize::MAX,
    ensures
        ({
            let released = s.split(idx, size).release(idx);
            &&& is_best_fit(released.blocks, rounded(bytes), idx)
            &&& released.serve(idx, size) == released.reuse(idx)
            &&& released.handle(idx) == s.split(idx, size).handle(idx)
            &&& forall|other: int|
                is_best_fit(released.blocks, rounded(bytes), other) ==> other == idx
        }),
{
    let released = s.split(idx, size).release(idx);
    law_release_keeps_split_parts(s, idx, size);
    assert forall|j: int|
        0 <= j < released.blocks.len() && (#[trigger] released.blocks[j]).fits(
            rounded(bytes),
        ) implies {
        &&& released.blocks[idx].size <= released.blocks[j].size
        &&& released.blocks[idx].size == released.blocks[j].size ==> idx <= j
    } by {
        if j < s.blocks.len() && j != idx {
            assert(s.blocks[j].fits(rounded(bytes)));
        }
    }
    assert(is_best_fit(released.blocks, rounded(bytes), idx));
    assert forall|other: int| is_best_fit(released.blocks, rounded(bytes), other) implies other
        == idx by {
        law_best_fit_is_unique(released.blocks, rounded(bytes), other, idx);
    }
}

/// A buffer that the device had to supply, once given back, is what the same request is served
/// with: the same address, without another allocation.
pub proof fn law_new_block_is_reused(s: PoolState, bytes: nat, ptr: usize, size: usize)
    requires
        s.valid(),
        none_fits(s.blocks, rounded(bytes)),
        size == rounded(bytes),
    ensures
        ({
            let released = s.grow(ptr, size).release(s.blocks.len() as int);
            &&& is_best_fit(released.blocks, rounded(bytes), s.blocks.len() as int)
            &&& released.handle(s.blocks.len() as int) == (Handle {
                ptr,
                size,
                block_idx: s.blocks.len(),
            })
            &&& released.serve(s.blocks.len() as int, size) == released.reuse(
                s.blocks.len() as int,
            )
            &&& forall|other: int|
                is_best_fit(released.blocks, rounded(bytes), other) ==> other == s.blocks.len()
        }),
{
    let released = s.grow(ptr, size).release(s.blocks.len() as int);
    let idx = s.blocks.len() as int;
    law_release_keeps_new_block(s, ptr, size);
    assert forall|j: int|
        0 <= j < released.blocks.len() && (#[trigger] released.blocks[j]).fits(
            rounded(bytes),
        ) implies j == idx by {
        if j < idx {
            assert(!s.blocks[j].fits(rounded(bytes)));
        }
    }
    assert(is_best_fit(released.blocks, rounded(bytes), idx));
    assert forall|other: int| is_best_fit(released.blocks, rounded(bytes), other) implies other
        == idx by {
        law_best_fit_is_unique(released.blocks, rounded(bytes), other, idx);
    }
}

/// The buffer that serves a request holds the bytes that were asked for, be it a part of a free
/// block, a whole one or a new one of the rounded size.
pub proof fn law_served_buffer_is_large_enough(s: PoolState, bytes: nat, size: usize)
    requires
        size == rounded(bytes),
    ensures
        forall|idx: int|
            is_best_fit(s.blocks, rounded(bytes), idx) ==> (#[trigger] s.serve(idx, size)).handle(
                idx,
            ).size >= bytes,
        forall|ptr: usize|
            (#[trigger] s.grow(ptr, size)).handle(s.blocks.len() as int).size >= bytes,
{
    law_rounded_is_least_multiple(bytes, bytes);
}

/// A buffer from a free block starts where the block starts, and has at most `SMALL_ROUND` bytes
/// more than the rounded size, unless that is 0 or the rest of the block would have no address.
pub proof fn law_served_buffer_wastes_little(s: PoolState, idx: int, size: usize)
    requires
        0 <= idx < s.blocks.len(),
        s.blocks[idx].fits(size as nat),
        size > 0,
        s.blocks[idx].ptr + size <= usize::MAX,
    ensures
        s.serve(idx, size).handle(idx).ptr == s.blocks[idx].ptr,
        s.serve(idx, size).handle(idx).size <= size + SMALL_ROUND,
{
}

/// The index of the block that a step lends out.
pub open spec fn lent(s: PoolState, step: Step) -> Option<int> {
    match step {
        Step::Reuse { idx } => Some(idx as int),
        Step::Split { idx, .. } => Some(idx as int),
        Step::Grow { .. } => Some(s.blocks.len() as int),
        Step::Release { .. } => None,
    }
}

/// A buffer stays good until it is given back: no other step moves, shrinks or frees its block.
pub proof fn law_live_buffer_survives_step(s: PoolState, step: Step, handle: Handle)
    requires
        s.enables(step),
        s.is_live(handle),
        step != (Step::Release { idx: handle.block_idx }),
    ensures
        s.after(step).is_live(handle),
{
}

/// A buffer stays good over any sequence of steps in which it is not given back.
pub proof fn law_live_buffer_survives_until_release(s: PoolState, steps: Seq<Step>, handle: Handle)
    requires
        s.enables_all(steps),
        s.is_live(handle),
        forall|i: int|
            0 <= i < steps.len() ==> #[trigger] steps[i] != (Step::Release {
                idx: handle.block_idx,
            }),
    ensures
        s.after_all(steps).is_live(handle),
    decreases steps.len(),
{
    if steps.len() > 0 {
        let front = steps.drop_last();
        assert forall|i: int| 0 <= i < front.len() implies #[trigger] front[i] != (Step::Release {
            idx: handle.block_idx,
        }) by {
            assert(front[i] == steps[i]);
        }
        law_live_buffer_survives_until_release(s, front, handle);
        assert(steps.last() == steps[steps.len() - 1]);
        law_live_buffer_survives_step(s.after_all(front), steps.last(), handle);
    }
}

/// A block that is lent out was lent to nobody else: it differs from the block of every live
/// buffer.
pub proof fn law_lent_block_is_fresh(s: PoolState, step: Step, handle: Handle)
    requires
        s.enables(step),
        s.is_live(handle),
    ensures
        lent(s, step) != Some(handle.block_idx as int),
{
}

/// A block that is lent out becomes live.
pub proof fn law_lent_block_becomes_live(s: PoolState, step: Step)
    requires
        s.enables(step),
        lent(s, step) is Some,
    ensures
        s.after(step).is_live(s.after(step).handle(lent(s, step)->0)),
{
}

/// Giving back a live buffer frees its block, so that the buffer is live no more, and takes its
/// bytes off those in use.
pub proof fn law_release_ends_buffer(s: PoolState, handle: Handle)
    requires
        s.valid(),
        s.is_live(handle),
    ensures
        s.release(handle.block_idx as int).is_free(handle.block_idx as int),
        !s.release(handle.block_idx as int).is_live(handle),
        s.release(handle.block_idx as int).current_in_use + handle.size == s.current_in_use,
{
    lemma_borrowed_block_counted(s.blocks, handle.block_idx as int);
}

/// Whether the memory that a step brings in, if any, is apart from the memory in the pool.
pub open spec fn brings_new_memory(s: PoolState, step: Step) -> bool {
    step matches Step::Grow { ptr, size } ==> forall|i: int|
        0 <= i < s.blocks.len() ==> (#[trigger] s.blocks[i]).disjoint(
            Block { ptr, size, allocated: true },
        )
}

/// As long as the device supplies memory apart from what it supplied before, no two blocks ever
/// have a byte in common.
pub proof fn law_step_keeps_blocks_disjoint(s: PoolState, step: Step)
    requires
        s.enables(step),
        pairwise_disjoint(s.blocks),
        brings_new_memory(s, step),
    ensures
        pairwise_disjoint(s.after(step).blocks),
{
    let before = s.blocks;
    let after = s.after(step).blocks;
    assert forall|i: int, j: int| 0 <= i < j < after.len() implies (#[trigger] after[i]).disjoint(
        #[trigger] after[j],
    ) by {
        assert forall|addr: int| !(#[trigger] after[i].covers(addr) && after[j].covers(addr)) by {
            if j < before.len() {
                assert(before[i].disjoint(before[j]));
                assert(after[i].covers(addr) ==> before[i].covers(addr));
                assert(after[j].covers(addr) ==> before[j].covers(addr));
            } else if let Step::Split { idx, .. } = step {
                assert(after[j].covers(addr) ==> before[idx as int].covers(addr));
                assert(after[i].covers(addr) ==> before[i].covers(addr));
                if i < idx {
                    assert(before[i].disjoint(before[idx as int]));
                } else if i > idx {
                    assert(before[idx as int].disjoint(before[i]));
                }
            } else {
                assert(before[i].disjoint(after[j]));
            }
        }
    }
}

/// Whether each of the steps in turn brings in no memory that is in the pool already.
pub open spec fn always_brings_new_memory(s: PoolState, steps: Seq<Step>) -> bool
    decreases steps.len(),
{
    steps.len() > 0 ==> {
        &&& always_brings_new_memory(s, steps.drop_last())
        &&& brings_new_memory(s.after_all(steps.drop_last()), steps.last())
    }
}

/// In every state that a new pool can come to, no two blocks have a byte in common, provided that
/// the device never supplied memory that was in the pool already.
pub proof fn law_reachable_blocks_are_disjoint(steps: Seq<Step>)
    requires
        PoolState::empty().enables_all(steps),
        always_brings_new_memory(PoolState::empty(), steps),
    ensures
        pairwise_disjoint(PoolState::empty().after_all(steps).blocks),
    decreases steps.len(),
{
    if steps.len() > 0 {
        law_reachable_blocks_are_disjoint(steps.drop_last());
        law_step_keeps_blocks_disjoint(
            PoolState::empty().after_all(steps.drop_last()),
            steps.last(),
        );
    }
}

/// Two live buffers of different blocks have no byte in common; where both hold a byte, their
/// addresses differ.
pub proof fn law_live_buffers_do_not_overlap(s: PoolState, a: Handle, b: Handle)
    requires
        pairwise_disjoint(s.blocks),
        s.is_live(a),
        s.is_live(b),
        a.block_idx != b.block_idx,
    ensures
        s.blocks[a.block_idx as int].disjoint(s.blocks[b.block_idx as int]),
        a.size > 0 && b.size > 0 ==> a.ptr != b.ptr,
{
    let first = s.blocks[a.block_idx as int];
    let second = s.blocks[b.block_idx as int];
    if a.block_idx < b.block_idx {
        assert(first.disjoint(second));
    } else {
        assert(second.disjoint(first));
        assert forall|addr: int| !(#[trigger] first.covers(addr) && second.covers(addr)) by {
            assert(!(second.covers(addr) && first.covers(addr)));
        }
    }
    assert(!(first.covers(a.ptr as int) && second.covers(a.ptr as int)));
}

/// The two parts of a split block are adjacent, and together they cover what it covered.
pub proof fn law_split_covers_the_block(s: PoolState, idx: nat, size: usize, addr: int)
    requires
        s.enables(Step::Split { idx, size }),
    ensures
        ({
            let used = s.split(idx as int, size).blocks[idx as int];
            let rest = s.split(idx as int, size).blocks.last();
            &&& used.ptr + used.size == rest.ptr
            &&& used.size + rest.size == s.blocks[idx as int].size
            &&& s.blocks[idx as int].covers(addr) <==> used.covers(addr) || rest.covers(addr)
        }),
{
}

} // verus!
