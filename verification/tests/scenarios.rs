use buffer_pool::{
    round_size, Acquisition, BufferPool, MahoutError, PooledBuffer, Release,
};

const MB: usize = 1024 * 1024;

/// Borrows a buffer; memory that the device has to supply lies at `ptr`.
fn borrow_at(pool: &mut BufferPool, size_bytes: usize, ptr: usize) -> PooledBuffer {
    match pool.acquire(size_bytes) {
        Acquisition::Ready(buffer) => buffer,
        Acquisition::Allocate(size) => match pool.allocate_new_block(size, Ok(ptr)) {
            Ok(buffer) => buffer,
            Err(error) => panic!("{:?}", error),
        },
    }
}

/// Borrows a buffer that the pool must have.
fn borrow_ready(pool: &mut BufferPool, size_bytes: usize) -> PooledBuffer {
    match pool.acquire(size_bytes) {
        Acquisition::Ready(buffer) => buffer,
        Acquisition::Allocate(size) => panic!("no free block of {} bytes", size),
    }
}

/// The size that the device is asked for; the pool must have no fitting block.
fn refused_size(pool: &mut BufferPool, size_bytes: usize) -> usize {
    match pool.acquire(size_bytes) {
        Acquisition::Ready(buffer) => panic!("block of {} bytes", buffer.size()),
        Acquisition::Allocate(size) => size,
    }
}

fn message_of(pool: &mut BufferPool, size: usize, reason: &str) -> String {
    match pool.allocate_new_block(size, Err(reason.to_string())) {
        Ok(buffer) => panic!("block of {} bytes", buffer.size()),
        Err(MahoutError::MemoryAllocation(message)) => message,
    }
}

#[test]
fn rounding_at_the_edges() {
    assert_eq!(round_size(0), 0);
    assert_eq!(round_size(MB - 1), MB);
    assert_eq!(round_size(MB), MB);
    assert_eq!(round_size(2 * MB + 1), 4 * MB);
    assert_eq!(round_size(usize::MAX - 2 * MB), usize::MAX - 2 * MB + 1);
}

#[test]
fn rounding_twice_changes_nothing() {
    for bytes in [0, 1, 511, 512, 513, MB, MB + 1, 3 * MB, 7 * MB + 13] {
        assert_eq!(round_size(round_size(bytes)), round_size(bytes));
    }
}

#[test]
fn rounding_keeps_the_order() {
    let sizes = [0, 1, 512, 513, MB - 1, MB, MB + 1, 2 * MB, 2 * MB + 1, 9 * MB];
    for pair in sizes.windows(2) {
        assert!(round_size(pair[0]) <= round_size(pair[1]));
    }
}

#[test]
fn new_pool_is_empty() {
    let pool = BufferPool::new();
    let stats = pool.stats();
    assert_eq!(stats.total_allocated, 0);
    assert_eq!(stats.current_in_use, 0);
    assert_eq!(stats.num_alloc_calls, 0);
    assert_eq!(stats.num_blocks, 0);
    assert_eq!(pool.block_ptrs(), Vec::<usize>::new());
    assert_eq!(pool.find_free_block(0), None);
    assert_eq!(pool.try_split_block(0), None);
}

#[test]
fn device_is_asked_for_the_rounded_size() {
    let mut pool = BufferPool::new();
    assert_eq!(refused_size(&mut pool, 1), 512);
    assert_eq!(refused_size(&mut pool, 5 * MB), 6 * MB);
    assert_eq!(refused_size(&mut pool, 0), 0);
    assert_eq!(pool.stats().num_blocks, 0);
}

#[test]
fn smallest_fitting_block_is_lent() {
    let mut pool = BufferPool::new();
    let large = borrow_at(&mut pool, 4096, 0x10000);
    let small = borrow_at(&mut pool, 512, 0x20000);
    let middle = borrow_at(&mut pool, 2048, 0x30000);
    pool.release(large);
    pool.release(small);
    pool.release(middle);

    assert_eq!(pool.find_free_block(1024), Some(2));
    let buffer = borrow_ready(&mut pool, 1024);
    assert_eq!(buffer.ptr(), 0x30000);
    assert_eq!(buffer.size(), 1024);
    assert_eq!(pool.stats().num_blocks, 4);
    assert_eq!(pool.stats().current_in_use, 1024);
    assert_eq!(pool.block_ptrs(), vec![0x10000, 0x20000, 0x30000, 0x30400]);
}

#[test]
fn first_of_equal_blocks_is_lent() {
    let mut pool = BufferPool::new();
    let first = borrow_at(&mut pool, 1024, 0x10000);
    let second = borrow_at(&mut pool, 1024, 0x20000);
    let third = borrow_at(&mut pool, 1024, 0x30000);
    pool.release(third);
    pool.release(second);
    assert_eq!(pool.find_free_block(1024), Some(1));
    assert_eq!(borrow_ready(&mut pool, 1000).ptr(), 0x20000);
    pool.release(first);
    assert_eq!(borrow_ready(&mut pool, 1000).ptr(), 0x10000);
    assert_eq!(borrow_ready(&mut pool, 1000).ptr(), 0x30000);
    assert_eq!(refused_size(&mut pool, 1000), 1024);
}

#[test]
fn released_block_serves_the_same_request() {
    let mut pool = BufferPool::new();
    let other = borrow_at(&mut pool, 8192, 0x10000);
    pool.release(other);
    let buffer = borrow_ready(&mut pool, 700);
    assert_eq!((buffer.ptr(), buffer.size()), (0x10000, 1024));
    pool.release(buffer);
    let again = borrow_ready(&mut pool, 700);
    assert_eq!((again.ptr(), again.size()), (0x10000, 1024));
    assert_eq!(pool.stats().num_alloc_calls, 1);
    assert_eq!(pool.stats().num_blocks, 2);
}

#[test]
fn refused_allocation_leaves_the_pool_unchanged() {
    let mut pool = BufferPool::new();
    let buffer = borrow_at(&mut pool, 1024, 0x10000);
    assert_eq!(refused_size(&mut pool, 2000), 2048);
    assert_eq!(
        message_of(&mut pool, 2048, "out of memory"),
        "Failed to allocate 2048 bytes: out of memory"
    );
    let stats = pool.stats();
    assert_eq!(stats.total_allocated, 1024);
    assert_eq!(stats.current_in_use, 1024);
    assert_eq!(stats.num_alloc_calls, 1);
    assert_eq!(stats.num_blocks, 1);
    assert_eq!(pool.release(buffer), Release::Released { bytes: 1024 });
}

#[test]
fn failure_message_holds_the_size_in_decimal() {
    let mut pool = BufferPool::new();
    for size in [0, 7, 10, 99, 100, 1234567890, usize::MAX] {
        assert_eq!(
            message_of(&mut pool, size, "DriverError"),
            format!("Failed to allocate {} bytes: DriverError", size)
        );
    }
}

#[test]
fn buffer_of_an_unknown_block_is_reported() {
    let mut lender = BufferPool::new();
    let buffer = borrow_at(&mut lender, 512, 0x10000);
    let mut pool = BufferPool::new();
    assert_eq!(pool.release(buffer), Release::InvalidIndex { block_idx: 0 });
    assert_eq!(pool.stats().num_blocks, 0);
}

#[test]
fn second_release_is_reported_and_changes_nothing() {
    let mut lender = BufferPool::new();
    let stray = borrow_at(&mut lender, 512, 0x10000);
    let mut pool = BufferPool::new();
    let buffer = borrow_at(&mut pool, 1024, 0x20000);
    assert_eq!(pool.release(buffer), Release::Released { bytes: 1024 });
    assert_eq!(pool.release(stray), Release::DoubleFree { block_idx: 0 });
    let stats = pool.stats();
    assert_eq!(stats.current_in_use, 0);
    assert_eq!(stats.total_allocated, 1024);
    assert_eq!(stats.num_blocks, 1);
}

#[test]
fn split_lends_the_first_part() {
    let mut pool = BufferPool::new();
    let buffer = borrow_at(&mut pool, 4096, 0x10000);
    assert_eq!(pool.try_split_block(1024), None);
    pool.release(buffer);

    assert_eq!(pool.try_split_block(1024), Some((0, 3072)));
    let part = pool.use_split_block(0, 1024, 3072);
    assert_eq!((part.ptr(), part.size()), (0x10000, 1024));
    let stats = pool.stats();
    assert_eq!(stats.num_blocks, 2);
    assert_eq!(stats.current_in_use, 1024);
    assert_eq!(stats.total_allocated, 4096);
    assert_eq!(stats.num_alloc_calls, 1);
    assert_eq!(pool.block_ptrs(), vec![0x10000, 0x10400]);

    let rest = borrow_ready(&mut pool, 3072);
    assert_eq!((rest.ptr(), rest.size()), (0x10400, 3072));
    pool.release(part);
    pool.release(rest);
    assert_eq!(pool.stats().current_in_use, 0);
}

#[test]
fn split_needs_more_than_a_small_unit_to_spare() {
    let mut pool = BufferPool::new();
    let first = borrow_at(&mut pool, 1024, 0x10000);
    let second = borrow_at(&mut pool, 2048, 0x20000);
    let third = borrow_at(&mut pool, 4096, 0x30000);
    pool.release(first);
    pool.release(second);
    pool.release(third);
    assert_eq!(pool.try_split_block(511), Some((0, 513)));
    assert_eq!(pool.try_split_block(512), Some((1, 1536)));
    assert_eq!(pool.try_split_block(1536), Some((2, 2560)));
    assert_eq!(pool.try_split_block(3584), None);
}

#[test]
fn much_larger_block_is_split() {
    let mut pool = BufferPool::new();
    let first = borrow_at(&mut pool, 2048, 0x10000);
    pool.release(first);
    let buffer = borrow_ready(&mut pool, 1024);
    assert_eq!((buffer.ptr(), buffer.size()), (0x10000, 1024));
    let stats = pool.stats();
    assert_eq!(stats.current_in_use, 1024);
    assert_eq!(stats.num_blocks, 2);
    assert_eq!(stats.num_alloc_calls, 1);
    assert_eq!(stats.total_allocated, 2048);

    // Only the address that the device supplied goes back to it.
    assert_eq!(pool.block_ptrs(), vec![0x10000, 0x10400]);
    assert_eq!(pool.supplied_ptrs(), vec![0x10000]);
    assert_eq!(pool.block_size(0), Some(1024));
    assert_eq!(pool.block_size(1), Some(1024));
    assert_eq!(pool.block_size(2), None);

    // The rest serves the next request.
    let rest = borrow_ready(&mut pool, 1000);
    assert_eq!((rest.ptr(), rest.size()), (0x10400, 1024));
    assert_eq!(pool.stats().num_blocks, 2);
    assert_eq!(refused_size(&mut pool, 1), 512);
}

#[test]
fn huge_block_is_split_for_a_small_request() {
    let mut pool = BufferPool::new();
    let first = borrow_at(&mut pool, 8 * MB, 0x10000);
    pool.release(first);
    assert_eq!(pool.try_split_block(1024), Some((0, 8 * MB - 1024)));
    assert_eq!(borrow_ready(&mut pool, 1024).size(), 1024);
    assert_eq!(pool.stats().num_blocks, 2);
    assert_eq!(pool.find_free_block(8 * MB - 1024), Some(1));
}

#[test]
fn block_with_little_to_spare_is_lent_whole() {
    let mut pool = BufferPool::new();
    let first = borrow_at(&mut pool, 1536, 0x10000);
    pool.release(first);
    let buffer = borrow_ready(&mut pool, 1024);
    assert_eq!((buffer.ptr(), buffer.size()), (0x10000, 1536));
    assert_eq!(pool.stats().num_blocks, 1);
    assert_eq!(pool.stats().current_in_use, 1536);
}

#[test]
fn block_is_lent_whole_where_the_rest_has_no_address() {
    let mut pool = BufferPool::new();
    let ptr = usize::MAX - 1023;
    let first = borrow_at(&mut pool, 4096, ptr);
    pool.release(first);
    let buffer = borrow_ready(&mut pool, 1024);
    assert_eq!((buffer.ptr(), buffer.size()), (ptr, 4096));
    pool.release(buffer);
    let part = borrow_ready(&mut pool, 512);
    assert_eq!((part.ptr(), part.size()), (ptr, 512));
    assert_eq!(pool.block_ptrs(), vec![ptr, ptr + 512]);
}

#[test]
fn block_is_lent_whole_where_no_bytes_are_asked_for() {
    let mut pool = BufferPool::new();
    let first = borrow_at(&mut pool, 1024, 0x10000);
    pool.release(first);
    let buffer = borrow_ready(&mut pool, 0);
    assert_eq!((buffer.ptr(), buffer.size()), (0x10000, 1024));
    assert_eq!(pool.block_ptrs(), vec![0x10000]);
    assert_eq!(refused_size(&mut pool, 512), 512);
}

#[test]
fn live_buffer_is_untouched_by_other_requests() {
    let mut pool = BufferPool::new();
    let kept = borrow_at(&mut pool, 1024, 0x10000);
    let other = borrow_at(&mut pool, 1024, 0x20000);
    pool.release(other);
    let again = borrow_ready(&mut pool, 1024);
    assert_ne!(again.ptr(), kept.ptr());
    let grown = borrow_at(&mut pool, 1024, 0x30000);
    assert_eq!(grown.ptr(), 0x30000);
    assert_eq!((kept.ptr(), kept.size()), (0x10000, 1024));
    assert_eq!(pool.release(kept), Release::Released { bytes: 1024 });
    assert_eq!(pool.stats().current_in_use, 2048);
}

#[test]
fn every_block_goes_back_to_the_device() {
    let mut pool = BufferPool::new();
    let first = borrow_at(&mut pool, 512, 0x30000);
    let _second = borrow_at(&mut pool, 512, 0x10000);
    pool.release(first);
    assert_eq!(pool.block_ptrs(), vec![0x30000, 0x10000]);
    assert_eq!(pool.supplied_ptrs(), vec![0x30000, 0x10000]);
}

#[test]
fn supplied_addresses_go_back_in_order_after_splits() {
    let mut pool = BufferPool::new();
    assert_eq!(pool.supplied_ptrs(), Vec::<usize>::new());
    let first = borrow_at(&mut pool, 4096, 0x30000);
    pool.release(first);
    let _part = borrow_ready(&mut pool, 512);
    let _second = borrow_at(&mut pool, 8192, 0x10000);
    assert_eq!(message_of(&mut pool, 512, "no"), "Failed to allocate 512 bytes: no");
    assert_eq!(pool.block_ptrs(), vec![0x30000, 0x30200, 0x10000]);
    assert_eq!(pool.supplied_ptrs(), vec![0x30000, 0x10000]);
}

#[test]
fn every_block_counts_as_an_allocation_unless_split() {
    let mut pool = BufferPool::new();
    let first = borrow_at(&mut pool, 4096, 0x10000);
    let second = borrow_at(&mut pool, 512, 0x20000);
    pool.release(first);
    pool.release(second);
    let again = borrow_ready(&mut pool, 512);
    assert_eq!(again.ptr(), 0x20000);
    assert_eq!(pool.stats().num_blocks, 2);
    assert_eq!(pool.stats().num_alloc_calls, 2);
    let part = pool.use_split_block(0, 1024, 3072);
    assert_eq!(part.ptr(), 0x10000);
    assert_eq!(pool.stats().num_blocks, 3);
    assert_eq!(pool.stats().num_alloc_calls, 2);
}
