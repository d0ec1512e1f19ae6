//! A durable, append-only log engine core: framed, checksummed records in a
//! fixed-capacity memory-mapped region, with a startup recovery scan that
//! restores a consistent write position, and a batching state machine that
//! groups incoming messages for a single disk-writing worker.

pub mod batch;
pub mod checksum;
pub mod frame;
pub mod mmap_store;
pub mod recovery;
pub mod storage;
