//! Verified core of a small Linux system monitor: the parsers for the
//! kernel's text interfaces, the per-drive throughput bookkeeping, the GPU
//! sampling state, the graph histories and the polling schedule.
pub mod disk;
pub mod gpu;
pub mod history;
pub mod memory;
pub mod poll;
pub mod table;
pub mod text;
