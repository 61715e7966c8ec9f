pub mod profiling;
pub mod task;
pub mod scheduler;
pub mod simulation;
pub mod bits;
pub mod memory;
pub mod simple_allocator;
pub mod matching;
pub mod hungarian;
pub mod assignment_cost;
pub mod zero_cover;
pub mod time_budget;
pub mod slab_allocator;
