# buffer_pool

A caching allocator for device memory. Blocks that are given back stay in the pool and serve
later requests, so that the device has to allocate and free less often.

- `src/` is the verified library. It keeps the books on addresses and sizes and never touches the
  device. Where no free block fits a request, `BufferPool::acquire` says how many bytes the device
  has to supply, and `BufferPool::allocate_new_block` takes what came of it.
  - `rounding`: the sizes that are handed out
  - `state`: the mathematical model of the pool and the steps that change it
  - `pool`: the pool itself
  - `error`: its errors
  - `laws`: what holds of the pool as a whole
- `tests/` runs the library.
- `app/` puts the library on a CUDA device: it allocates, frees and reports.

The best fit among the free blocks serves a request. Where it has more than 512 bytes to spare, it
is split: the request gets the first part, and the rest stays in the pool as a free block.
A block whose rest would lie beyond the last address is lent whole, and so is one for a request of 0
bytes. In the end the device gets back the addresses that it has supplied, each once.
