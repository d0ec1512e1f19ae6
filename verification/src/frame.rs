//! The on-disk frame format: a 4-byte big-endian payload length, a 4-byte
//! big-endian checksum, then the payload bytes, contiguous and unpadded.

use vstd::prelude::*;
use crate::checksum::crc32_of;

verus! {

/// The value of four bytes read as a big-endian unsigned 32-bit integer.
pub open spec fn be_u32(b: Seq<u8>) -> int
    recommends
        b.len() == 4,
{
    (b[0] as int) * 0x1000000 + (b[1] as int) * 0x10000 + (b[2] as int) * 0x100 + (b[3] as int)
}

/// The four-byte big-endian encoding of a 32-bit value.
pub open spec fn be_bytes(x: u32) -> Seq<u8> {
    seq![
        (x / 0x1000000) as u8,
        ((x / 0x10000) % 0x100) as u8,
        ((x / 0x100) % 0x100) as u8,
        (x % 0x100) as u8,
    ]
}

/// Decoding the big-endian encoding of a value gives the value back.
pub proof fn lemma_be_round_trip(x: u32)
    ensures
        be_u32(be_bytes(x)) == x,
{
    assert((x / 0x1000000) * 0x1000000 + ((x / 0x10000) % 0x100) * 0x10000 + ((x / 0x100)
        % 0x100) * 0x100 + (x % 0x100) == x) by (nonlinear_arith);
}

/// Reads the big-endian 32-bit integer stored at `off`.
pub fn read_u32_be(data: &[u8], off: usize) -> (r: u32)
    requires
        off + 4 <= data@.len(),
    ensures
        r as int == be_u32(data@.subrange(off as int, off as int + 4)),
{
    let b0 = data[off] as u32;
    let b1 = data[off + 1] as u32;
    let b2 = data[off + 2] as u32;
    let b3 = data[off + 3] as u32;
    let r = b0 * 0x1000000 + b1 * 0x10000 + b2 * 0x100 + b3;
    proof {
        let s = data@.subrange(off as int, off as int + 4);
        assert(s[0] == data@[off as int]);
        assert(s[1] == data@[off as int + 1]);
        assert(s[2] == data@[off as int + 2]);
        assert(s[3] == data@[off as int + 3]);
    }
    r
}

/// Encodes a 32-bit value as its four big-endian bytes.
pub fn u32_to_be(x: u32) -> (r: Vec<u8>)
    ensures
        r@ == be_bytes(x),
{
    let mut r: Vec<u8> = Vec::new();
    r.push((x / 0x1000000) as u8);
    r.push(((x / 0x10000) % 0x100) as u8);
    r.push(((x / 0x100) % 0x100) as u8);
    r.push((x % 0x100) as u8);
    proof {
        assert(r@ =~= be_bytes(x));
    }
    r
}

/// The bytes of one on-disk frame: payload length, checksum code, payload.
pub open spec fn frame_bytes(payload: Seq<u8>, code: u32) -> Seq<u8>
    recommends
        payload.len() <= u32::MAX,
{
    be_bytes(payload.len() as u32) + be_bytes(code) + payload
}

/// The bytes of one frame whose code is the payload's own checksum.
pub open spec fn checked_frame(payload: Seq<u8>) -> Seq<u8>
    recommends
        payload.len() <= u32::MAX,
{
    frame_bytes(payload, crc32_of(payload))
}

/// The on-disk bytes of a run of messages, each framed with its own checksum,
/// laid out contiguously in order.
pub open spec fn framed_log(msgs: Seq<Seq<u8>>) -> Seq<u8>
    decreases msgs.len(),
{
    if msgs.len() == 0 {
        Seq::empty()
    } else {
        checked_frame(msgs[0]) + framed_log(msgs.drop_first())
    }
}

/// Framing a run of messages and then one more appends that message's frame.
pub proof fn lemma_framed_log_snoc(msgs: Seq<Seq<u8>>, m: Seq<u8>)
    ensures
        framed_log(msgs.push(m)) == framed_log(msgs) + checked_frame(m),
    decreases msgs.len(),
{
    if msgs.len() == 0 {
        let s = msgs.push(m);
        assert(s[0] == m);
        assert(s.drop_first() =~= Seq::<Seq<u8>>::empty());
        assert(framed_log(s.drop_first()) =~= Seq::<u8>::empty());
        assert(framed_log(s) == checked_frame(m) + framed_log(s.drop_first()));
        assert(framed_log(msgs) =~= Seq::<u8>::empty());
        assert(framed_log(s) =~= framed_log(msgs) + checked_frame(m));
    } else {
        assert(msgs.push(m).drop_first() =~= msgs.drop_first().push(m));
        lemma_framed_log_snoc(msgs.drop_first(), m);
        assert(framed_log(msgs.push(m)) =~= framed_log(msgs) + checked_frame(m));
    }
}

/// A message's own frame always fits inside the framed run it belongs to,
/// past the frames of the messages before it.
pub proof fn lemma_framed_log_prefix_len(msgs: Seq<Seq<u8>>, k: int)
    requires
        0 <= k < msgs.len(),
    ensures
        framed_log(msgs.take(k)).len() + 8 + msgs[k].len() <= framed_log(msgs).len(),
    decreases msgs.len(),
{
    if k == 0 {
        assert(msgs.take(0) =~= Seq::<Seq<u8>>::empty());
        assert(framed_log(msgs).len() >= checked_frame(msgs[0]).len());
    } else {
        lemma_framed_log_prefix_len(msgs.drop_first(), k - 1);
        assert(msgs.take(k).drop_first() =~= msgs.drop_first().take(k - 1));
        assert(framed_log(msgs.take(k)) == checked_frame(msgs[0]) + framed_log(
            msgs.drop_first().take(k - 1),
        ));
    }
}

} // verus!
