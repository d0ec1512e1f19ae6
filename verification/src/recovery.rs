//! The startup recovery scan: replays the frame sequence found in the backing
//! region, validates each checksum, and returns the byte offset at which the
//! log is known-good — the resume point for the store's write pointer.

use vstd::prelude::*;
use crate::checksum;
use crate::checksum::{checksum_matches, crc32_of};
use crate::frame::{
    be_bytes, be_u32, checked_frame, frame_bytes, framed_log, lemma_be_round_trip, read_u32_be,
};

verus! {

/// The offset at which a scan that starts at `cursor` stops: frames are
/// consumed while a full header is present, the length field is nonzero, the
/// whole payload lies inside the region, and the stored checksum matches the
/// payload; the scan stops at the first offset where any of these fails.
pub open spec fn recover_from(region: Seq<u8>, cursor: int) -> int
    recommends
        0 <= cursor <= region.len(),
    decreases region.len() - cursor,
    when 0 <= cursor <= region.len()
{
    if cursor + 8 > region.len() {
        cursor
    } else {
        let length = be_u32(region.subrange(cursor, cursor + 4));
        let code = be_u32(region.subrange(cursor + 4, cursor + 8));
        if length == 0 {
            cursor
        } else if cursor + 8 + length > region.len() {
            cursor
        } else if !checksum_matches(region.subrange(cursor + 8, cursor + 8 + length), code as u32) {
            cursor
        } else {
            recover_from(region, cursor + 8 + length)
        }
    }
}

/// The write offset that recovery restores for a whole backing region.
pub open spec fn recover_offset(region: Seq<u8>) -> int {
    recover_from(region, 0)
}

/// A scan that stands before a valid, checksummed, nonempty frame consumes it
/// whole and continues immediately after it.
pub proof fn lemma_recover_step(region: Seq<u8>, cursor: int, payload: Seq<u8>)
    requires
        0 <= cursor,
        1 <= payload.len() <= u32::MAX,
        cursor + 8 + payload.len() <= region.len(),
        region.subrange(cursor, cursor + 8 + payload.len()) == checked_frame(payload),
    ensures
        recover_from(region, cursor) == recover_from(region, cursor + 8 + payload.len()),
{
    let l = payload.len() as int;
    let fr = region.subrange(cursor, cursor + 8 + l);
    assert(region.subrange(cursor, cursor + 4) =~= fr.subrange(0, 4));
    assert(fr.subrange(0, 4) =~= be_bytes(payload.len() as u32));
    assert(region.subrange(cursor + 4, cursor + 8) =~= fr.subrange(4, 8));
    assert(fr.subrange(4, 8) =~= be_bytes(crc32_of(payload)));
    assert(region.subrange(cursor + 8, cursor + 8 + l) =~= fr.subrange(8, 8 + l));
    assert(fr.subrange(8, 8 + l) =~= payload);
    lemma_be_round_trip(payload.len() as u32);
    lemma_be_round_trip(crc32_of(payload));
    assert(be_u32(region.subrange(cursor, cursor + 4)) == l);
    assert(be_u32(region.subrange(cursor + 4, cursor + 8)) == crc32_of(payload) as int);
    assert(checksum_matches(region.subrange(cursor + 8, cursor + 8 + l), crc32_of(payload)));
    assert(recover_from(region, cursor) == recover_from(region, cursor + 8 + l));
}

/// A scan never looks behind its cursor: scanning past a prefix behaves as a
/// scan of the suffix alone, shifted by the prefix's length.
pub proof fn lemma_recover_shift(prefix: Seq<u8>, region: Seq<u8>, cursor: int)
    requires
        0 <= cursor <= region.len(),
    ensures
        recover_from(prefix + region, prefix.len() + cursor) == prefix.len() + recover_from(
            region,
            cursor,
        ),
    decreases region.len() - cursor,
{
    let w = prefix + region;
    let p = prefix.len() as int;
    if cursor + 8 > region.len() {
        assert(recover_from(w, p + cursor) == p + cursor);
    } else {
        assert(w.subrange(p + cursor, p + cursor + 4) =~= region.subrange(cursor, cursor + 4));
        assert(w.subrange(p + cursor + 4, p + cursor + 8) =~= region.subrange(
            cursor + 4,
            cursor + 8,
        ));
        let length = be_u32(region.subrange(cursor, cursor + 4));
        let code = be_u32(region.subrange(cursor + 4, cursor + 8));
        if length == 0 {
            assert(recover_from(w, p + cursor) == p + cursor);
        } else if cursor + 8 + length > region.len() {
            assert(recover_from(w, p + cursor) == p + cursor);
        } else {
            assert(w.subrange(p + cursor + 8, p + cursor + 8 + length) =~= region.subrange(
                cursor + 8,
                cursor + 8 + length,
            ));
            if checksum_matches(region.subrange(cursor + 8, cursor + 8 + length), code as u32) {
                lemma_recover_shift(prefix, region, cursor + 8 + length);
                assert(recover_from(w, p + cursor) == recover_from(w, p + (cursor + 8 + length)));
            } else {
                assert(recover_from(w, p + cursor) == p + cursor);
            }
        }
    }
}

/// End-to-end recovery: a region holding a run of valid, checksummed,
/// nonempty frames, followed by a tail that cannot read as a frame header (too
/// short, or a zero length field), recovers to exactly the run's total length.
pub proof fn lemma_recover_framed_run(msgs: Seq<Seq<u8>>, tail: Seq<u8>)
    requires
        forall|k: int| 0 <= k < msgs.len() ==> 1 <= (#[trigger] msgs[k]).len() <= u32::MAX,
        tail.len() < 8 || be_u32(tail.subrange(0, 4)) == 0,
    ensures
        recover_offset(framed_log(msgs) + tail) == framed_log(msgs).len(),
    decreases msgs.len(),
{
    if msgs.len() == 0 {
        assert(framed_log(msgs) + tail =~= tail);
        assert(recover_from(tail, 0) == 0);
    } else {
        let m0 = msgs[0];
        let rest = msgs.drop_first();
        let f0 = checked_frame(m0);
        let region = framed_log(msgs) + tail;
        let suffix = framed_log(rest) + tail;
        assert(framed_log(msgs) == f0 + framed_log(rest));
        assert(region =~= f0 + suffix);
        assert(region.subrange(0, 8 + m0.len() as int) =~= f0);
        lemma_recover_step(region, 0, m0);
        lemma_recover_framed_run(rest, tail);
        lemma_recover_shift(f0, suffix, 0);
        assert(recover_from(region, f0.len() as int) == f0.len() + recover_from(suffix, 0));
    }
}

/// Framing round-trip: a region holding exactly one frame, written with the
/// payload's own checksum, recovers to the offset just past that frame.
pub proof fn lemma_framing_round_trip(payload: Seq<u8>)
    requires
        1 <= payload.len() <= u32::MAX,
    ensures
        recover_offset(checked_frame(payload)) == 8 + payload.len(),
{
    let region = checked_frame(payload);
    let l = payload.len() as int;
    assert(region.len() == 8 + l);
    assert(region.subrange(0, 8 + l) =~= region);
    lemma_recover_step(region, 0, payload);
    assert(recover_from(region, 8 + l) == 8 + l);
}

/// Corruption truncation: a valid frame followed by a frame whose stored
/// checksum does not match its payload recovers to the end of the valid
/// frame only.
pub proof fn lemma_corruption_truncates(p1: Seq<u8>, p2: Seq<u8>, code2: u32)
    requires
        1 <= p1.len() <= u32::MAX,
        p2.len() <= u32::MAX,
        code2 != crc32_of(p2),
    ensures
        recover_offset(checked_frame(p1) + frame_bytes(p2, code2)) == 8 + p1.len(),
{
    let region = checked_frame(p1) + frame_bytes(p2, code2);
    let c2 = 8 + p1.len() as int;
    assert(region.len() == c2 + 8 + p2.len());
    assert(region.subrange(0, c2) =~= checked_frame(p1));
    lemma_recover_step(region, 0, p1);
    assert(region.subrange(c2, c2 + 4) =~= be_bytes(p2.len() as u32));
    assert(region.subrange(c2 + 4, c2 + 8) =~= be_bytes(code2));
    lemma_be_round_trip(p2.len() as u32);
    lemma_be_round_trip(code2);
    if p2.len() == 0 {
        assert(recover_from(region, c2) == c2);
    } else {
        assert(region.subrange(c2 + 8, c2 + 8 + p2.len()) =~= p2);
        assert(!checksum_matches(p2, code2));
        assert(recover_from(region, c2) == c2);
    }
}

/// Incomplete trailing frame: a valid frame followed by fewer than 8 trailing
/// bytes recovers to the offset immediately after the valid frame.
pub proof fn lemma_incomplete_trailing_frame(payload: Seq<u8>, tail: Seq<u8>)
    requires
        1 <= payload.len() <= u32::MAX,
        tail.len() < 8,
    ensures
        recover_offset(checked_frame(payload) + tail) == 8 + payload.len(),
{
    let region = checked_frame(payload) + tail;
    let l = payload.len() as int;
    assert(region.subrange(0, 8 + l) =~= checked_frame(payload));
    lemma_recover_step(region, 0, payload);
    assert(recover_from(region, 8 + l) == 8 + l);
}

pub struct RecoveryManager;

impl RecoveryManager {
    /// Scans the mapped region from offset 0 and returns the offset at which
    /// the contiguous run of valid frames ends: the store's new write pointer.
    pub fn scan_and_repair(mmap_data: &[u8]) -> (r: usize)
        ensures
            r as int == recover_offset(mmap_data@),
            r <= mmap_data@.len(),
    {
        let file_len = mmap_data.len();
        let mut cursor: usize = 0;

        loop
            invariant
                cursor <= file_len,
                file_len == mmap_data@.len(),
                recover_from(mmap_data@, cursor as int) == recover_offset(mmap_data@),
            ensures
                cursor <= file_len,
                recover_from(mmap_data@, cursor as int) == cursor as int,
            decreases file_len - cursor,
        {
            if file_len - cursor < 8 {
                proof {
                    assert(recover_from(mmap_data@, cursor as int) == cursor as int);
                }
                break;
            }
            let length = read_u32_be(mmap_data, cursor) as usize;
            let stored_crc = read_u32_be(mmap_data, cursor + 4);
            proof {
                assert(length as int == be_u32(
                    mmap_data@.subrange(cursor as int, cursor as int + 4),
                ));
                assert(stored_crc as int == be_u32(
                    mmap_data@.subrange(cursor as int + 4, cursor as int + 8),
                ));
            }

            if length == 0 {
                proof {
                    assert(recover_from(mmap_data@, cursor as int) == cursor as int);
                }
                break;
            }

            if length > file_len - cursor - 8 {
                proof {
                    assert(recover_from(mmap_data@, cursor as int) == cursor as int);
                }
                break;
            }

            let payload_start = cursor + 8;
            let payload_end = payload_start + length;
            let payload = &mmap_data[payload_start..payload_end];
            if !checksum::validate(payload, stored_crc) {
                proof {
                    assert(recover_from(mmap_data@, cursor as int) == cursor as int);
                }
                break;
            }

            proof {
                assert(recover_from(mmap_data@, cursor as int) == recover_from(
                    mmap_data@,
                    payload_end as int,
                ));
            }
            cursor = payload_end;
        }

        cursor
    }
}

} // verus!
