# os

The decision logic of a teaching kernel's process and synchronisation
system calls, verified with Verus.

- `src/vec_map.rs`: a small association list keyed by ids, viewed as a map.
- `src/deadlock.rs`: the banker's safety check run before a thread may wait
  for a mutex or semaphore, proved to refuse exactly the requests after which
  no order lets every thread finish.
- `src/sync.rs`: the bookkeeping of mutexes, semaphores and condition
  variables and the decisions of their system calls.
- `src/memory_set.rs`: the mapped pages of an address space.
- `src/process.rs`: `mmap`, `munmap`, `waitpid`, `get_time` and the other
  process system calls, as functions from state to result.

The system calls take the state they decide on as arguments; the kernel
performs what they decide (blocking, waking, writing to user memory).

`MemorySet` stands for an address space as the set of its mapped pages with
their permissions; `remove_frame_area` unmaps an area only when every page
of it is mapped. `UserMemory` stands for physical memory and the frame behind
each mapped page, through which values are written into user space byte by
byte, each byte through the page it falls on.
