//! Small verified container library: an array-backed binary heap that can be
//! used with either a max or a min orientation, a stack, and a bounded FIFO
//! queue.

pub mod binaryheap;
pub mod queue;
pub mod stack;
