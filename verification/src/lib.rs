//! A memory-latency benchmark core: pointer-chasing linked structures laid out
//! in flat arrays, traversed either sequentially or by a small cooperative
//! scheduler that interleaves several traversals to hide fetch latency.

pub mod executor;
pub mod travellers;
pub mod workloads;
