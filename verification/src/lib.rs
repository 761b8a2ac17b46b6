//! Bookkeeping of a caching allocator for device memory.
//!
//! A `BufferPool` keeps the blocks that a device has supplied and lends them out again, so that
//! the device has to allocate and free less often. Where no free block fits a request, the pool
//! says how many bytes the device has to supply, and takes what came of it. It works on
//! addresses and sizes alone and never touches the device's memory.

pub mod error;
pub mod laws;
pub mod pool;
pub mod promises;
pub mod rounding;
pub mod state;

pub use crate::error::{MahoutError, Result};
pub use crate::pool::{Acquisition, BufferPool, PoolStats, PooledBuffer, Release};
pub use crate::rounding::round_size;
