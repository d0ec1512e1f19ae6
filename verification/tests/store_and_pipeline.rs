use framelog::batch::{batch_messages, process_batch, Batcher};
use framelog::checksum::calculate;
use framelog::mmap_store::MmapStore;
use framelog::storage::{LogStore, StorageError};

fn anon_store(capacity: usize) -> MmapStore {
    let mmap = memmap2::MmapMut::map_anon(capacity).expect("anonymous map");
    MmapStore::from_map(mmap)
}

#[test]
fn fresh_store_recovers_to_zero() {
    let store = anon_store(64);
    assert_eq!(store.current_offset(), 0);
    assert_eq!(store.segment_capacity(), 64);
}

#[test]
fn append_returns_prior_offset() {
    let mut store = anon_store(64);
    assert_eq!(store.append(b"abc"), Ok(0));
    assert_eq!(store.append(b"de"), Ok(3));
    assert_eq!(store.current_offset(), 5);
}

#[test]
fn capacity_enforcement_leaves_pointer_unchanged() {
    let mut store = anon_store(16);
    assert_eq!(store.append(b"0123456789"), Ok(0));
    assert_eq!(store.append(b"toolong"), Err(StorageError::SegmentFull));
    assert_eq!(store.current_offset(), 10);
    assert_eq!(store.append(b"123456"), Ok(10));
    assert_eq!(store.current_offset(), 16);
    assert_eq!(store.append(b"x"), Err(StorageError::SegmentFull));
}

#[test]
fn framed_append_counts_header_against_capacity() {
    let mut store = anon_store(16);
    let nine = b"123456789";
    assert_eq!(
        store.append_with_checksum(nine, calculate(nine)),
        Err(StorageError::SegmentFull)
    );
    assert_eq!(store.current_offset(), 0);
    let eight = b"12345678";
    assert_eq!(store.append_with_checksum(eight, calculate(eight)), Ok(0));
    assert_eq!(store.current_offset(), 16);
}

#[test]
fn framed_append_recovers_after_rescan() {
    let mut store = anon_store(64);
    let payload = b"hello";
    assert_eq!(store.append_with_checksum(payload, calculate(payload)), Ok(0));
    assert_eq!(store.rescan(), 8 + payload.len());
}

#[test]
fn sync_succeeds_on_mapped_region() {
    let mut store = anon_store(64);
    store.append(b"abc").unwrap();
    assert_eq!(store.sync(), Ok(()));
}

#[test]
fn batcher_dispatches_on_threshold_only() {
    let mut batcher = Batcher::new(2);
    assert!(batcher.push(b"a".to_vec()).is_none());
    let full = batcher.push(b"b".to_vec()).expect("second message fills the batch");
    assert_eq!(full, vec![b"a".to_vec(), b"b".to_vec()]);
    assert!(batcher.timeout_flush().is_none());
    assert!(batcher.push(b"c".to_vec()).is_none());
    let partial = batcher.timeout_flush().expect("timeout flushes the partial batch");
    assert_eq!(partial, vec![b"c".to_vec()]);
}

#[test]
fn batch_count_is_ceiling_of_messages_over_threshold() {
    let msgs: Vec<Vec<u8>> = (0u8..7).map(|i| vec![i]).collect();
    let batches = batch_messages(&msgs, 3);
    assert_eq!(batches.len(), 3);
    assert_eq!(batches[0].len(), 3);
    assert_eq!(batches[1].len(), 3);
    assert_eq!(batches[2].len(), 1);
    let flat: Vec<Vec<u8>> = batches.into_iter().flatten().collect();
    assert_eq!(flat, msgs);
}

#[test]
fn batch_count_exact_multiple_has_no_partial_batch() {
    let msgs: Vec<Vec<u8>> = (0u8..6).map(|i| vec![i]).collect();
    let batches = batch_messages(&msgs, 3);
    assert_eq!(batches.len(), 2);
    assert_eq!(batches[0].len(), 3);
    assert_eq!(batches[1].len(), 3);
}

#[test]
fn process_batch_appends_frames_in_order() {
    let mut store = anon_store(1024);
    let msgs = vec![b"a".to_vec(), b"bb".to_vec()];
    assert_eq!(process_batch(&mut store, &msgs), Ok(()));
    assert_eq!(store.current_offset(), (8 + 1) + (8 + 2));
    assert_eq!(store.rescan(), (8 + 1) + (8 + 2));
}

#[test]
fn process_batch_stops_at_first_rejected_append() {
    let mut store = anon_store(20);
    let msgs = vec![b"wxyz".to_vec(), b"stuv".to_vec()];
    assert_eq!(process_batch(&mut store, &msgs), Err(StorageError::SegmentFull));
    assert_eq!(store.current_offset(), 8 + 4);
    assert_eq!(store.rescan(), 8 + 4);
}

#[test]
fn end_to_end_scenario() {
    // An empty 1 MiB store; messages "a", "bb", "ccc" on one connection with
    // batch size 3: exactly one batch, acknowledged once, and a fresh recovery
    // scan lands exactly past the three frames.
    let mut store = anon_store(1 << 20);
    let mut batcher = Batcher::new(3);
    let mut acks: Vec<u8> = Vec::new();

    for msg in [&b"a"[..], b"bb", b"ccc"] {
        if let Some(batch) = batcher.push(msg.to_vec()) {
            assert_eq!(batch.len(), 3);
            assert_eq!(process_batch(&mut store, &batch), Ok(()));
            acks.push(1);
        }
    }

    assert_eq!(acks, vec![1]);
    let expected = (8 + 1) + (8 + 2) + (8 + 3);
    assert_eq!(store.current_offset(), expected);
    assert_eq!(store.rescan(), expected);
}
