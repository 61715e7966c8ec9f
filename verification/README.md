# sched_alloc

Small systems exercises, verified with Verus:

- `profiling`: the polling functions used to try out a profiler.
- `task`, `scheduler`, `simulation`: a non-preemptive shortest-job-first
  scheduler and a simulation that feeds it random tasks.
- `time_budget`, `matching`, `zero_cover`, `hungarian`, `assignment_cost`:
  realtime scheduling of tasks on nodes: the time budget matrix, greedy
  pairing over its zeros, growing that pairing along paths of zeros and
  finding the tasks and nodes they reach, the rounds of the Hungarian
  method, and why the rounds end with an assignment of least cost.
- `memory`, `bits`, `simple_allocator`: a byte memory with word access and a
  first-fit allocator with boundary tags that merges free neighbours.
- `slab_allocator`: pages cut into power-of-two blocks for small requests
  and runs of whole pages for large ones.

`src/` is the library; every function in it carries a contract that Verus
proves. `app/` is the program around it: argument handling, printing,
timing, the floating-point steps, and the two allocators behind
`GlobalAlloc` over memory mapped with `mmap`. `tests/` runs the library on
concrete inputs.
