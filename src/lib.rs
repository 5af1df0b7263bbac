//! Task scheduling core: pending task lists per index, the batching policy,
//! and the scheduler state that drives it.

pub mod task;
pub mod queue;
pub mod scheduler;
