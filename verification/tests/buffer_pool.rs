use buffer_pool::{round_size, Acquisition, BufferPool, PooledBuffer, Result};

/// A pool together with a device that supplies memory from ever higher addresses.
struct TestPool {
    pool: BufferPool,
    next_ptr: usize,
}

impl TestPool {
    fn acquire(&mut self, size_bytes: usize) -> Result<PooledBuffer> {
        match self.pool.acquire(size_bytes) {
            Acquisition::Ready(buffer) => Ok(buffer),
            Acquisition::Allocate(size) => {
                let ptr = self.next_ptr;
                self.next_ptr += size;
                self.pool.allocate_new_block(size, Ok(ptr))
            }
        }
    }

    fn release(&mut self, buffer: PooledBuffer) {
        self.pool.release(buffer);
    }

    fn stats(&self) -> buffer_pool::PoolStats {
        self.pool.stats()
    }
}

fn init_test_pool() -> Result<TestPool> {
    Ok(TestPool { pool: BufferPool::new(), next_ptr: 0x7f00_0000 })
}

#[test]
fn test_round_size() {
    // Small allocations (<= 1MB) round to 512 bytes
    assert_eq!(round_size(1), 512);
    assert_eq!(round_size(512), 512);
    assert_eq!(round_size(513), 1024);
    assert_eq!(round_size(1024), 1024);

    // Large allocations (> 1MB) round to 2MB
    assert_eq!(round_size(1024 * 1024 + 1), 2 * 1024 * 1024);
    assert_eq!(round_size(2 * 1024 * 1024), 2 * 1024 * 1024);
    assert_eq!(round_size(3 * 1024 * 1024), 4 * 1024 * 1024);
}

#[test]
fn test_pool_basic_allocation() -> Result<()> {
    let mut pool = init_test_pool()?;

    // Allocate a buffer
    let buf1 = pool.acquire(1024)?;
    assert_eq!(buf1.size(), 1024);
    assert!(buf1.ptr() != 0);

    let stats = pool.stats();
    assert_eq!(stats.num_alloc_calls, 1);
    assert_eq!(stats.current_in_use, 1024);

    // Release it
    pool.release(buf1);

    let stats = pool.stats();
    assert_eq!(stats.current_in_use, 0);

    Ok(())
}

#[test]
fn test_pool_reuse() -> Result<()> {
    let mut pool = init_test_pool()?;

    // First allocation
    let buf1 = pool.acquire(1024)?;
    let ptr1 = buf1.ptr();
    pool.release(buf1);

    // Second allocation should reuse the same block
    let buf2 = pool.acquire(1024)?;
    let ptr2 = buf2.ptr();
    pool.release(buf2);

    assert_eq!(ptr1, ptr2, "Should reuse the same block");

    let stats = pool.stats();
    assert_eq!(stats.num_alloc_calls, 1, "Should only allocate once");

    Ok(())
}

#[test]
fn test_pool_multiple_sizes() -> Result<()> {
    let mut pool = init_test_pool()?;

    let buf1 = pool.acquire(512)?;
    let buf2 = pool.acquire(1024)?;
    let buf3 = pool.acquire(2048)?;

    assert_eq!(buf1.size(), 512);
    assert_eq!(buf2.size(), 1024);
    assert_eq!(buf3.size(), 2048);

    let stats = pool.stats();
    assert_eq!(stats.num_alloc_calls, 3);
    assert_eq!(stats.current_in_use, 512 + 1024 + 2048);

    pool.release(buf1);
    pool.release(buf2);
    pool.release(buf3);

    let stats = pool.stats();
    assert_eq!(stats.current_in_use, 0);

    Ok(())
}

#[test]
fn test_pool_best_fit() -> Result<()> {
    let mut pool = init_test_pool()?;

    // Allocate and release different sizes
    let buf1 = pool.acquire(512)?;
    let buf2 = pool.acquire(2048)?;
    pool.release(buf1);
    pool.release(buf2);

    // Now the pool has free blocks: 512 and 2048
    // Request 1024 should NOT use the 512 block (too small)
    let buf3 = pool.acquire(1024)?;

    let stats = pool.stats();
    assert!(stats.num_blocks >= 2);

    pool.release(buf3);

    Ok(())
}

#[test]
fn test_pool_concurrent_allocations() -> Result<()> {
    let mut pool = init_test_pool()?;

    // Allocate multiple buffers concurrently (not released)
    let buf1 = pool.acquire(1024)?;
    let buf2 = pool.acquire(1024)?;
    let buf3 = pool.acquire(1024)?;

    let stats = pool.stats();
    assert_eq!(stats.num_alloc_calls, 3, "Should allocate 3 separate blocks");
    assert_eq!(stats.current_in_use, 3 * 1024);

    // Verify they have different pointers
    assert_ne!(buf1.ptr(), buf2.ptr());
    assert_ne!(buf2.ptr(), buf3.ptr());
    assert_ne!(buf1.ptr(), buf3.ptr());

    pool.release(buf1);
    pool.release(buf2);
    pool.release(buf3);

    Ok(())
}

#[test]
fn test_pool_large_allocation() -> Result<()> {
    let mut pool = init_test_pool()?;

    // Allocate a large buffer (> 1MB)
    let size = 5 * 1024 * 1024; // 5 MB
    let buf = pool.acquire(size)?;

    // Should be rounded up to 6 MB (next multiple of 2MB)
    assert_eq!(buf.size(), 6 * 1024 * 1024);

    let stats = pool.stats();
    assert_eq!(stats.num_alloc_calls, 1);

    pool.release(buf);

    Ok(())
}

#[test]
fn test_pool_stats_accuracy() -> Result<()> {
    let mut pool = init_test_pool()?;

    let buf1 = pool.acquire(1000)?;
    let rounded1 = round_size(1000);

    let stats1 = pool.stats();
    assert_eq!(stats1.total_allocated, rounded1);
    assert_eq!(stats1.current_in_use, rounded1);
    assert_eq!(stats1.num_alloc_calls, 1);

    let buf2 = pool.acquire(2000)?;
    let rounded2 = round_size(2000);

    let stats2 = pool.stats();
    assert_eq!(stats2.total_allocated, rounded1 + rounded2);
    assert_eq!(stats2.current_in_use, rounded1 + rounded2);
    assert_eq!(stats2.num_alloc_calls, 2);

    pool.release(buf1);

    let stats3 = pool.stats();
    assert_eq!(stats3.current_in_use, rounded2);
    assert_eq!(stats3.total_allocated, rounded1 + rounded2); // Total doesn't decrease

    pool.release(buf2);

    let stats4 = pool.stats();
    assert_eq!(stats4.current_in_use, 0);

    Ok(())
}
