//! The batching state machine that feeds the disk worker, and the worker's
//! own append loop. A batch collects messages from one connection in arrival
//! order and is dispatched when it reaches the size threshold or when a flush
//! timeout forces a partial batch out; the worker appends every message of a
//! batch, framed and checksummed, before the batch is acknowledged.

use vstd::prelude::*;
use vstd::arithmetic::div_mod::lemma_fundamental_div_mod_converse;
use crate::checksum;
use crate::frame::{checked_frame, framed_log, lemma_framed_log_prefix_len, lemma_framed_log_snoc};
use crate::storage::{LogStore, StorageError};

verus! {

/// The byte sequences held by a vector of byte buffers, in order.
pub open spec fn seq_views(s: Seq<Vec<u8>>) -> Seq<Seq<u8>> {
    s.map_values(|m: Vec<u8>| m@)
}

/// The message sequences held by a vector of batches, in order.
pub open spec fn batch_views(s: Seq<Vec<Vec<u8>>>) -> Seq<Seq<Seq<u8>>> {
    s.map_values(|b: Vec<Vec<u8>>| seq_views(b@))
}

/// Per-connection batch assembly: messages accumulate in arrival order and
/// leave as one batch either when the count threshold is reached or when a
/// flush timeout forces a nonempty partial batch out.
pub struct Batcher {
    pending: Vec<Vec<u8>>,
    batch_size: usize,
}

impl Batcher {
    /// The messages accumulated and not yet dispatched, in arrival order.
    pub closed spec fn pending_msgs(&self) -> Seq<Seq<u8>> {
        seq_views(self.pending@)
    }

    /// The configured message-count threshold of a full batch.
    pub closed spec fn threshold(&self) -> nat {
        self.batch_size as nat
    }

    /// A batcher never holds a full batch: dispatch happens on arrival.
    pub closed spec fn inv(&self) -> bool {
        1 <= self.batch_size && self.pending@.len() < self.batch_size
    }

    pub fn new(batch_size: usize) -> (r: Self)
        requires
            batch_size >= 1,
        ensures
            r.inv(),
            r.threshold() == batch_size as nat,
            r.pending_msgs() == Seq::<Seq<u8>>::empty(),
    {
        let r = Batcher { pending: Vec::new(), batch_size };
        proof {
            assert(r.pending_msgs() =~= Seq::<Seq<u8>>::empty());
        }
        r
    }

    /// Accepts one arrived message; returns the full batch to dispatch when
    /// the message completes one, and `None` while the batch is still short.
    pub fn push(&mut self, msg: Vec<u8>) -> (r: Option<Vec<Vec<u8>>>)
        requires
            old(self).inv(),
        ensures
            final(self).inv(),
            final(self).threshold() == old(self).threshold(),
            match r {
                Some(batch) => {
                    &&& seq_views(batch@) == old(self).pending_msgs().push(msg@)
                    &&& batch@.len() == old(self).threshold()
                    &&& final(self).pending_msgs() == Seq::<Seq<u8>>::empty()
                },
                None => {
                    &&& final(self).pending_msgs() == old(self).pending_msgs().push(msg@)
                    &&& old(self).pending_msgs().len() + 1 < old(self).threshold()
                },
            },
    {
        let ghost prior = self.pending_msgs();
        self.pending.push(msg);
        if self.pending.len() >= self.batch_size {
            let mut batch: Vec<Vec<u8>> = Vec::new();
            core::mem::swap(&mut batch, &mut self.pending);
            proof {
                assert(seq_views(batch@) =~= prior.push(batch@[batch@.len() - 1]@));
                assert(self.pending_msgs() =~= Seq::<Seq<u8>>::empty());
            }
            Some(batch)
        } else {
            proof {
                assert(self.pending_msgs() =~= prior.push(
                    self.pending@[self.pending@.len() - 1]@,
                ));
            }
            None
        }
    }

    /// Flushes a nonempty partial batch when the idle timeout fires; returns
    /// `None` when nothing is pending.
    pub fn timeout_flush(&mut self) -> (r: Option<Vec<Vec<u8>>>)
        requires
            old(self).inv(),
        ensures
            final(self).inv(),
            final(self).threshold() == old(self).threshold(),
            match r {
                Some(batch) => {
                    &&& seq_views(batch@) == old(self).pending_msgs()
                    &&& batch@.len() == old(self).pending_msgs().len()
                    &&& batch@.len() > 0
                    &&& final(self).pending_msgs() == Seq::<Seq<u8>>::empty()
                },
                None => {
                    &&& old(self).pending_msgs().len() == 0
                    &&& final(self).pending_msgs() == old(self).pending_msgs()
                },
            },
    {
        if self.pending.len() == 0 {
            return None;
        }
        let mut batch: Vec<Vec<u8>> = Vec::new();
        core::mem::swap(&mut batch, &mut self.pending);
        proof {
            assert(seq_views(batch@) =~= old(self).pending_msgs());
            assert(self.pending_msgs() =~= Seq::<Seq<u8>>::empty());
        }
        Some(batch)
    }
}

/// The number of batches, and so of acknowledgement bytes, that a run of `n`
/// messages produces under threshold `b` when a final partial batch is
/// flushed by the idle timeout: `n / b` rounded up.
pub open spec fn ceil_div(n: int, b: int) -> int
    recommends
        b >= 1,
{
    (n + b - 1) / b
}

/// An exact copy of a byte buffer.
fn copy_bytes(v: &Vec<u8>) -> (r: Vec<u8>)
    ensures
        r@ == v@,
{
    let mut r: Vec<u8> = Vec::new();
    let mut j: usize = 0;
    while j < v.len()
        invariant
            j <= v@.len(),
            r@ == v@.subrange(0, j as int),
        decreases v@.len() - j,
    {
        r.push(v[j]);
        proof {
            assert(r@ =~= v@.subrange(0, j + 1));
        }
        j = j + 1;
    }
    proof {
        assert(r@ =~= v@);
    }
    r
}

/// Batch acknowledgement ordering: one connection's run of messages, batched
/// under a count threshold with a final idle-timeout flush, dispatches the
/// messages in arrival order, every batch before the last one exactly full,
/// and produces exactly `ceil(n / batch_size)` batches — one acknowledgement
/// byte each.
pub fn batch_messages(msgs: &Vec<Vec<u8>>, batch_size: usize) -> (batches: Vec<Vec<Vec<u8>>>)
    requires
        batch_size >= 1,
    ensures
        batch_views(batches@).flatten() == seq_views(msgs@),
        batches@.len() == ceil_div(msgs@.len() as int, batch_size as int),
        forall|j: int| 0 <= j < batches@.len() - 1 ==> (#[trigger] batches@[j])@.len()
            == batch_size,
        forall|j: int| 0 <= j < batches@.len() ==> 1 <= (#[trigger] batches@[j])@.len()
            <= batch_size,
{
    let n = msgs.len();
    let bs = batch_size;
    let mut batcher = Batcher::new(bs);
    let mut batches: Vec<Vec<Vec<u8>>> = Vec::new();
    let mut i: usize = 0;
    proof {
        assert(batch_views(batches@) =~= Seq::<Seq<Seq<u8>>>::empty());
        assert(batch_views(batches@).flatten() =~= Seq::<Seq<u8>>::empty());
    }
    while i < n
        invariant
            n == msgs@.len(),
            i <= n,
            batcher.inv(),
            batcher.threshold() == bs as nat,
            bs >= 1,
            batch_views(batches@).flatten() + batcher.pending_msgs() == seq_views(msgs@).take(
                i as int,
            ),
            batches@.len() * (bs as int) + batcher.pending_msgs().len() == i as int,
            forall|j: int| 0 <= j < batches@.len() ==> (#[trigger] batches@[j])@.len() == bs,
        decreases n - i,
    {
        let ghost flat_before = batch_views(batches@).flatten();
        let ghost pending_before = batcher.pending_msgs();
        let msg = copy_bytes(&msgs[i]);
        let ghost mv = msg@;
        match batcher.push(msg) {
            Some(batch) => {
                let ghost q = batches@.len() as int;
                let ghost prior_views = batch_views(batches@);
                batches.push(batch);
                proof {
                    assert(batch_views(batches@) =~= prior_views.push(seq_views(batch@)));
                    prior_views.lemma_flatten_push(seq_views(batch@));
                    assert(batch_views(batches@).flatten() =~= flat_before + pending_before.push(
                        mv,
                    ));
                    assert(seq_views(msgs@).take(i + 1) =~= seq_views(msgs@).take(i as int).push(
                        mv,
                    ));
                    assert(batch_views(batches@).flatten() + batcher.pending_msgs() =~= seq_views(
                        msgs@,
                    ).take(i + 1));
                    assert((q + 1) * (bs as int) == q * (bs as int) + bs) by (nonlinear_arith);
                }
            },
            None => {
                proof {
                    assert(seq_views(msgs@).take(i + 1) =~= seq_views(msgs@).take(i as int).push(
                        mv,
                    ));
                    assert(batch_views(batches@).flatten() + batcher.pending_msgs() =~= seq_views(
                        msgs@,
                    ).take(i + 1));
                }
            },
        }
        i = i + 1;
    }
    proof {
        assert(seq_views(msgs@).take(n as int) =~= seq_views(msgs@));
    }
    let ghost q = batches@.len() as int;
    let ghost rem = batcher.pending_msgs().len() as int;
    let ghost prior_views = batch_views(batches@);
    let ghost flat_before = batch_views(batches@).flatten();
    let ghost pending_before = batcher.pending_msgs();
    match batcher.timeout_flush() {
        Some(batch) => {
            batches.push(batch);
            proof {
                assert(batch_views(batches@) =~= prior_views.push(seq_views(batch@)));
                prior_views.lemma_flatten_push(seq_views(batch@));
                assert(batch_views(batches@).flatten() =~= flat_before + pending_before);
                assert(batch_views(batches@).flatten() =~= seq_views(msgs@));
                assert((q + 1) * (bs as int) == q * (bs as int) + bs) by (nonlinear_arith);
                lemma_fundamental_div_mod_converse(
                    n as int + bs as int - 1,
                    bs as int,
                    q + 1,
                    rem - 1,
                );
            }
        },
        None => {
            proof {
                assert(n as int == q * (bs as int));
                lemma_fundamental_div_mod_converse(
                    n as int + bs as int - 1,
                    bs as int,
                    q,
                    bs as int - 1,
                );
            }
        },
    }
    batches
}

/// The disk worker's handling of one batch: appends every message, framed
/// with its own checksum, to the store in batch order. Stops at the first
/// append the store rejects; the log then holds exactly the frames of the
/// messages before the rejected one, and a batch whose framed size fits the
/// remaining capacity is appended whole.
pub fn process_batch<S: LogStore>(store: &mut S, messages: &Vec<Vec<u8>>) -> (r: Result<
    (),
    StorageError,
>)
    requires
        old(store).inv(),
        forall|k: int| 0 <= k < messages@.len() ==> (#[trigger] messages@[k])@.len() <= u32::MAX,
    ensures
        final(store).inv(),
        final(store).capacity() == old(store).capacity(),
        r is Ok ==> final(store).log() == old(store).log() + framed_log(seq_views(messages@)),
        old(store).log().len() + framed_log(seq_views(messages@)).len() <= old(store).capacity()
            ==> r is Ok,
        r matches Err(e) ==> e == StorageError::SegmentFull && exists|k: int|
            0 <= k < messages@.len() && final(store).log() == old(store).log() + framed_log(
                seq_views(messages@).take(k),
            ) && final(store).log().len() + 8 + (#[trigger] messages@[k])@.len() > old(
                store,
            ).capacity(),
{
    let n = messages.len();
    let mut i: usize = 0;
    while i < n
        invariant
            store.inv(),
            store.capacity() == old(store).capacity(),
            n == messages@.len(),
            i <= n,
            forall|k: int| 0 <= k < messages@.len() ==> (#[trigger] messages@[k])@.len()
                <= u32::MAX,
            store.log() == old(store).log() + framed_log(seq_views(messages@).take(i as int)),
        decreases n - i,
    {
        let msg = &messages[i];
        let code = checksum::calculate(msg.as_slice());
        let res = store.append_with_checksum(msg.as_slice(), code);
        match res {
            Ok(_) => {
                proof {
                    let views = seq_views(messages@);
                    assert(views.take(i + 1) =~= views.take(i as int).push(msg@));
                    lemma_framed_log_snoc(views.take(i as int), msg@);
                    assert(store.log() =~= old(store).log() + framed_log(views.take(i + 1)));
                }
                i = i + 1;
            },
            Err(e) => {
                proof {
                    lemma_framed_log_prefix_len(seq_views(messages@), i as int);
                    assert(seq_views(messages@).take(messages@.len() as int) =~= seq_views(
                        messages@,
                    ));
                }
                return Err(e);
            },
        }
    }
    proof {
        assert(seq_views(messages@).take(n as int) =~= seq_views(messages@));
    }
    Ok(())
}

} // verus!
