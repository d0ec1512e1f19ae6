//! The memory-mapped store: a fixed-capacity region mapped read-write into
//! memory, implementing framed, checksummed appends and flush-to-disk. The
//! mapped bytes themselves live behind the `memmap2` crate; the write-pointer
//! discipline, bounds checks and frame layout are verified here.

use vstd::prelude::*;
use crate::frame::{be_bytes, frame_bytes, u32_to_be};
use crate::recovery::{recover_offset, RecoveryManager};
use crate::storage::{LogStore, StorageError};

verus! {

#[verifier::external_type_specification]
#[verifier::external_body]
pub struct ExMmapMut(memmap2::MmapMut);

/// The bytes of the mapped region that a `MmapMut` gives access to.
pub uninterp spec fn mmap_bytes(m: memmap2::MmapMut) -> Seq<u8>;

/// Relies on `MmapMut`'s `Deref` to `[u8]`: the mapped region's byte length.
#[verifier::external_body]
fn mmap_len(m: &memmap2::MmapMut) -> (r: usize)
    ensures
        r == mmap_bytes(*m).len(),
{
    m.len()
}

/// Relies on `MmapMut`'s `Deref` to `[u8]`: a read view of the whole region.
#[verifier::external_body]
fn mmap_as_slice(m: &memmap2::MmapMut) -> (r: &[u8])
    ensures
        r@ == mmap_bytes(*m),
{
    &m[..]
}

/// Relies on `MmapMut`'s `DerefMut` to `[u8]` and `copy_from_slice`: writes
/// `data` at `offset`, leaving every byte outside that range unchanged.
#[verifier::external_body]
fn mmap_write(m: &mut memmap2::MmapMut, offset: usize, data: &[u8])
    requires
        offset + data@.len() <= mmap_bytes(*old(m)).len(),
    ensures
        mmap_bytes(*final(m)).len() == mmap_bytes(*old(m)).len(),
        forall|i: int|
            0 <= i < offset as int ==> mmap_bytes(*final(m))[i] == mmap_bytes(*old(m))[i],
        forall|i: int|
            offset as int <= i < offset as int + data@.len() ==> mmap_bytes(*final(m))[i]
                == data@[i - offset as int],
        forall|i: int|
            offset as int + data@.len() <= i < mmap_bytes(*old(m)).len() ==> mmap_bytes(
                *final(m),
            )[i] == mmap_bytes(*old(m))[i],
{
    m[offset..offset + data.len()].copy_from_slice(data);
}

/// Relies on `MmapMut::flush`: durably writes outstanding modifications of a
/// file-backed region back to disk, reporting any I/O error.
#[verifier::external_body]
fn mmap_flush(m: &memmap2::MmapMut) -> (r: Result<(), StorageError>)
    ensures
        r matches Err(e) ==> e == StorageError::Io,
{
    match m.flush() {
        Ok(()) => Ok(()),
        Err(_) => Err(StorageError::Io),
    }
}

/// A fixed-capacity, append-only store over a memory-mapped region. The
/// capacity equals the mapped length and never changes; `write_ptr` is the
/// offset of the next byte to write and never exceeds the capacity.
pub struct MmapStore {
    mmap: memmap2::MmapMut,
    write_ptr: usize,
    capacity: usize,
}

impl MmapStore {
    /// The full mapped region, written and unwritten bytes alike.
    pub closed spec fn region(&self) -> Seq<u8> {
        mmap_bytes(self.mmap)
    }

    /// Takes ownership of an already-mapped region and restores the write
    /// pointer with a recovery scan, as the startup sequence demands: the log
    /// resumes exactly where the contiguous run of valid frames ends.
    pub fn from_map(mmap: memmap2::MmapMut) -> (r: Self)
        ensures
            r.inv(),
            r.capacity() == mmap_bytes(mmap).len(),
            r.log() == mmap_bytes(mmap).subrange(0, recover_offset(mmap_bytes(mmap))),
            r.log().len() == recover_offset(mmap_bytes(mmap)),
    {
        let capacity = mmap_len(&mmap);
        let write_ptr = RecoveryManager::scan_and_repair(mmap_as_slice(&mmap));
        MmapStore { mmap, write_ptr, capacity }
    }

    /// Runs a fresh recovery scan over the region as it stands now, without
    /// touching the write pointer.
    pub fn rescan(&self) -> (r: usize)
        ensures
            r as int == recover_offset(self.region()),
    {
        RecoveryManager::scan_and_repair(mmap_as_slice(&self.mmap))
    }

    /// The current write pointer: the offset the next append would write at.
    pub fn current_offset(&self) -> (r: usize)
        requires
            self.inv(),
        ensures
            r as int == self.log().len(),
    {
        self.write_ptr
    }

    /// The fixed capacity of the backing segment.
    pub fn segment_capacity(&self) -> (r: usize)
        ensures
            r as nat == self.capacity(),
    {
        self.capacity
    }
}

impl LogStore for MmapStore {
    closed spec fn log(&self) -> Seq<u8> {
        mmap_bytes(self.mmap).subrange(0, self.write_ptr as int)
    }

    closed spec fn capacity(&self) -> nat {
        self.capacity as nat
    }

    closed spec fn inv(&self) -> bool {
        self.write_ptr <= self.capacity && self.capacity == mmap_bytes(self.mmap).len()
    }

    fn append(&mut self, data: &[u8]) -> (r: Result<u64, StorageError>) {
        let len = data.len();
        if len > self.capacity - self.write_ptr {
            return Err(StorageError::SegmentFull);
        }
        let start = self.write_ptr;
        let ghost old_region = mmap_bytes(self.mmap);
        mmap_write(&mut self.mmap, start, data);
        self.write_ptr = start + len;
        proof {
            assert(mmap_bytes(self.mmap).subrange(0, self.write_ptr as int) =~= old_region
                .subrange(0, start as int) + data@);
        }
        Ok(start as u64)
    }

    fn append_with_checksum(&mut self, data: &[u8], crc: u32) -> (r: Result<u64, StorageError>) {
        let payload_len = data.len();
        let avail = self.capacity - self.write_ptr;
        if avail < 8 || payload_len > avail - 8 {
            return Err(StorageError::SegmentFull);
        }
        let start = self.write_ptr;
        let ghost old_region = mmap_bytes(self.mmap);

        let len_bytes = u32_to_be(data.len() as u32);
        mmap_write(&mut self.mmap, start, len_bytes.as_slice());

        let crc_bytes = u32_to_be(crc);
        mmap_write(&mut self.mmap, start + 4, crc_bytes.as_slice());

        mmap_write(&mut self.mmap, start + 8, data);

        self.write_ptr = start + 8 + payload_len;
        proof {
            let f = frame_bytes(data@, crc);
            assert(f == be_bytes(payload_len as u32) + be_bytes(crc) + data@);
            assert(mmap_bytes(self.mmap).subrange(0, self.write_ptr as int) =~= old_region
                .subrange(0, start as int) + f);
        }
        Ok(start as u64)
    }

    fn sync(&self) -> (r: Result<(), StorageError>) {
        mmap_flush(&self.mmap)
    }
}

} // verus!
