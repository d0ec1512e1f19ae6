//! The storage contract: an append-only byte log with a fixed capacity, a raw
//! append, a framed-and-checksummed append, and a durable flush.

use vstd::prelude::*;
use crate::frame::frame_bytes;

verus! {

/// Why a storage operation failed. `SegmentFull` is a normal, recoverable
/// condition: the fixed-capacity segment has no room for the request, nothing
/// was written and the write pointer did not move. `Io` reports a lower-level
/// failure while flushing to the backing medium.
#[derive(Clone, Copy, Debug, PartialEq, Eq, Structural)]
pub enum StorageError {
    SegmentFull,
    Io,
}

/// An append-only log with a fixed byte capacity.
///
/// The model is the sequence of bytes appended so far (`log`); the write
/// pointer is its length. Appends extend the log on success only and reject,
/// without any partial write, anything that would push the log past
/// `capacity`.
pub trait LogStore: Sized {
    /// The bytes durably owed to callers so far, in append order.
    spec fn log(&self) -> Seq<u8>;

    /// The fixed byte capacity of the backing segment.
    spec fn capacity(&self) -> nat;

    /// The store's internal well-formedness.
    spec fn inv(&self) -> bool;

    /// Writes `data` verbatim at the write pointer and returns the offset it
    /// was written at; rejects the whole write when it would not fit.
    fn append(&mut self, data: &[u8]) -> (r: Result<u64, StorageError>)
        requires
            old(self).inv(),
        ensures
            final(self).inv(),
            final(self).capacity() == old(self).capacity(),
            match r {
                Ok(offset) => {
                    &&& old(self).log().len() + data@.len() <= old(self).capacity()
                    &&& offset as int == old(self).log().len()
                    &&& final(self).log() == old(self).log() + data@
                },
                Err(e) => {
                    &&& e == StorageError::SegmentFull
                    &&& old(self).log().len() + data@.len() > old(self).capacity()
                    &&& final(self).log() == old(self).log()
                },
            },
    ;

    /// Writes the 8-byte frame header (payload length, checksum code) followed
    /// by `data`, and returns the offset of the frame's first byte; rejects
    /// the whole frame when `8 + data.len()` bytes would not fit.
    fn append_with_checksum(&mut self, data: &[u8], crc: u32) -> (r: Result<u64, StorageError>)
        requires
            old(self).inv(),
            data@.len() <= u32::MAX,
        ensures
            final(self).inv(),
            final(self).capacity() == old(self).capacity(),
            match r {
                Ok(offset) => {
                    &&& old(self).log().len() + 8 + data@.len() <= old(self).capacity()
                    &&& offset as int == old(self).log().len()
                    &&& final(self).log() == old(self).log() + frame_bytes(data@, crc)
                },
                Err(e) => {
                    &&& e == StorageError::SegmentFull
                    &&& old(self).log().len() + 8 + data@.len() > old(self).capacity()
                    &&& final(self).log() == old(self).log()
                },
            },
    ;

    /// Durably flushes all previously appended bytes to the backing medium;
    /// any failure of the medium is reported as `Io`.
    fn sync(&self) -> (r: Result<(), StorageError>)
        requires
            self.inv(),
        ensures
            r matches Err(e) ==> e == StorageError::Io,
    ;
}

} // verus!
