use std::sync::Mutex;

use toy_cow::block_api::{ByteRange, PayloadIntegrity, ReadVerification};
use toy_cow::checksum::data_log_checksum;
use toy_cow::codec::{decode_row, encode_row, DurableEncoder};
use toy_cow::coordinator::LocalCoordinator;
use toy_cow::error::StorageError;
use toy_cow::id::{CommitSeq, DeviceId, SegmentId, StorageNodeId, WriterEpoch};
use toy_cow::integrity::{StorageNodeReadService, StoredPlace};
use toy_cow::journal_overlay::BlockJournalOverlay;
use toy_cow::journal_packing::encode_block_journal_record_sequence;
use toy_cow::journal_records::{
    BlockJournalCommit, BlockJournalEntry, BlockJournalRecord, PackedBlockJournalEntry,
    PackedBlockJournalWrites,
};
use toy_cow::metadata_records::{MappingOwner, SegmentPayloadIntegrity};
use toy_cow::segment_records::SegmentWriteReceipt;

struct CountingSegmentReadStorage {
    inner: LocalCoordinator,
    segment_reads: Mutex<Vec<ByteRange>>,
}

impl CountingSegmentReadStorage {
    fn new(inner: LocalCoordinator) -> Self {
        Self {
            inner,
            segment_reads: Mutex::new(Vec::new()),
        }
    }

    fn segment_reads(&self) -> Vec<ByteRange> {
        self.segment_reads.lock().unwrap().clone()
    }
}

impl StorageNodeReadService for CountingSegmentReadStorage {
    fn stored_byte(&self, _: StorageNodeId, _: SegmentId, _: StoredPlace) -> u8 {
        unreachable!()
    }

    fn logged_byte(&self, _: StorageNodeId, _: u64, _: StoredPlace) -> u8 {
        unreachable!()
    }

    fn serves_segment(
        &self,
        _: StorageNodeId,
        _: SegmentId,
        _: ByteRange,
        _: SegmentPayloadIntegrity,
        _: ReadVerification,
    ) -> bool {
        unreachable!()
    }

    fn serves_log(
        &self,
        _: StorageNodeId,
        _: u64,
        _: ByteRange,
        _: SegmentPayloadIntegrity,
        _: ReadVerification,
    ) -> bool {
        unreachable!()
    }

    fn read_segment_source(
        &self,
        storage_node: StorageNodeId,
        segment_id: SegmentId,
        range: ByteRange,
        integrity: SegmentPayloadIntegrity,
        verification: ReadVerification,
        buf: &mut [u8],
    ) -> Result<(), StorageError> {
        self.segment_reads.lock().unwrap().push(range);
        self.inner
            .read_segment_source(storage_node, segment_id, range, integrity, verification, buf)
    }

    fn read_append_run_source(
        &self,
        storage_node: StorageNodeId,
        log_id: u64,
        range: ByteRange,
        integrity: SegmentPayloadIntegrity,
        verification: ReadVerification,
        buf: &mut [u8],
    ) -> Result<(), StorageError> {
        self.inner
            .read_append_run_source(storage_node, log_id, range, integrity, verification, buf)
    }
}

fn range(offset: u64, len: u64) -> ByteRange {
    ByteRange { offset, len }
}

fn journal_commit(
    device_id: DeviceId,
    commit_seq: u64,
    offset: u64,
    bytes: Vec<u8>,
) -> BlockJournalCommit {
    BlockJournalCommit {
        device_id,
        writer_epoch: WriterEpoch::from_raw(1),
        commit_seq: CommitSeq::from_raw(commit_seq),
        write_count: 1,
        collapsed_range_count: 1,
        committed_bytes: bytes.len() as u64,
        entries: vec![BlockJournalEntry::Write {
            range: range(offset, bytes.len() as u64),
            payload_integrity: PayloadIntegrity::Verified,
            bytes,
        }],
    }
}

fn journal_commit_from_writes(
    device_id: DeviceId,
    commit_seq: u64,
    writes: Vec<(u64, Vec<u8>)>,
) -> BlockJournalCommit {
    let committed_bytes = writes.iter().map(|(_, bytes)| bytes.len() as u64).sum::<u64>();
    let write_count = writes.len() as u64;
    BlockJournalCommit {
        device_id,
        writer_epoch: WriterEpoch::from_raw(1),
        commit_seq: CommitSeq::from_raw(commit_seq),
        write_count,
        collapsed_range_count: write_count,
        committed_bytes,
        entries: writes
            .into_iter()
            .map(|(offset, bytes)| BlockJournalEntry::Write {
                range: range(offset, bytes.len() as u64),
                payload_integrity: PayloadIntegrity::Verified,
                bytes,
            })
            .collect(),
    }
}

fn sparse_commit(device_id: DeviceId, commit_seq: u64, range: ByteRange) -> BlockJournalCommit {
    BlockJournalCommit {
        device_id,
        writer_epoch: WriterEpoch::from_raw(1),
        commit_seq: CommitSeq::from_raw(commit_seq),
        write_count: 1,
        collapsed_range_count: 1,
        committed_bytes: 0,
        entries: vec![BlockJournalEntry::Sparse { range }],
    }
}

fn segment_commit(
    device_id: DeviceId,
    commit_seq: u64,
    range: ByteRange,
    receipt: &SegmentWriteReceipt,
) -> BlockJournalCommit {
    BlockJournalCommit {
        device_id,
        writer_epoch: WriterEpoch::from_raw(1),
        commit_seq: CommitSeq::from_raw(commit_seq),
        write_count: 1,
        collapsed_range_count: 1,
        committed_bytes: range.len,
        entries: vec![BlockJournalEntry::Segment {
            range,
            storage_node: receipt.storage_node,
            segment_id: receipt.segment_id,
            segment_offset: 0,
            integrity: receipt.integrity,
        }],
    }
}

fn repeated_block(value: u8, block: usize) -> Vec<u8> {
    vec![value; block]
}

#[test]
fn block_journal_lba_map_latest_overlap_wins() {
    let mut overlay = BlockJournalOverlay::new();
    let device_id = DeviceId::from_raw(7);
    let block = 4096_usize;
    overlay
        .apply_commit(&journal_commit(device_id, 1, 0, vec![1; block * 4]), block as u64)
        .unwrap();
    overlay
        .apply_commit(&journal_commit(device_id, 2, block as u64, vec![2; block]), block as u64)
        .unwrap();
    assert_eq!(overlay.lba_run_count(device_id), 3);

    let mut read = vec![9; block * 4];
    overlay
        .apply_read_overlay(
            &LocalCoordinator::new(),
            device_id,
            range(0, (block * 4) as u64),
            ReadVerification::RequireVerified,
            &mut read,
        )
        .unwrap();
    assert_eq!(&read[..block], vec![1; block]);
    assert_eq!(&read[block..block * 2], vec![2; block]);
    assert_eq!(&read[block * 2..], vec![1; block * 2]);
}

#[test]
fn block_journal_lba_map_adjacent_writes_share_read_view() {
    let mut overlay = BlockJournalOverlay::new();
    let device_id = DeviceId::from_raw(8);
    let block = 4096_usize;
    overlay
        .apply_commit(&journal_commit(device_id, 1, 0, vec![1; block]), block as u64)
        .unwrap();
    overlay
        .apply_commit(&journal_commit(device_id, 2, block as u64, vec![2; block]), block as u64)
        .unwrap();
    assert_eq!(overlay.lba_run_count(device_id), 2);

    let mut read = vec![0; block * 2];
    overlay
        .apply_read_overlay(
            &LocalCoordinator::new(),
            device_id,
            range(0, (block * 2) as u64),
            ReadVerification::RequireVerified,
            &mut read,
        )
        .unwrap();
    assert_eq!(&read[..block], vec![1; block]);
    assert_eq!(&read[block..], vec![2; block]);
}

#[test]
fn block_journal_lba_map_preserves_disjoint_ranges_around_overlap() {
    let mut overlay = BlockJournalOverlay::new();
    let device_id = DeviceId::from_raw(9);
    let block = 4096_usize;
    overlay
        .apply_commit(&journal_commit(device_id, 1, 0, vec![1; block]), block as u64)
        .unwrap();
    overlay
        .apply_commit(
            &journal_commit(device_id, 2, (block * 2) as u64, vec![2; block]),
            block as u64,
        )
        .unwrap();
    overlay
        .apply_commit(
            &journal_commit(device_id, 3, block as u64, vec![3; block * 2]),
            block as u64,
        )
        .unwrap();
    assert_eq!(overlay.lba_run_count(device_id), 2);

    let mut read = vec![0; block * 3];
    overlay
        .apply_read_overlay(
            &LocalCoordinator::new(),
            device_id,
            range(0, (block * 3) as u64),
            ReadVerification::RequireVerified,
            &mut read,
        )
        .unwrap();
    assert_eq!(&read[..block], vec![1; block]);
    assert_eq!(&read[block..], vec![3; block * 2]);
}

#[test]
fn block_journal_lba_map_sparse_zero_overlays_base_bytes() {
    let mut overlay = BlockJournalOverlay::new();
    let device_id = DeviceId::from_raw(10);
    let block = 4096_usize;
    overlay
        .apply_commit(&journal_commit(device_id, 1, 0, vec![1; block * 3]), block as u64)
        .unwrap();
    overlay
        .apply_commit(
            &sparse_commit(device_id, 2, range(block as u64, block as u64)),
            block as u64,
        )
        .unwrap();
    assert_eq!(overlay.lba_run_count(device_id), 3);

    let mut read = vec![7; block * 3];
    overlay
        .apply_read_overlay(
            &LocalCoordinator::new(),
            device_id,
            range(0, (block * 3) as u64),
            ReadVerification::RequireVerified,
            &mut read,
        )
        .unwrap();
    assert_eq!(&read[..block], repeated_block(1, block));
    assert_eq!(&read[block..block * 2], repeated_block(0, block));
    assert_eq!(&read[block * 2..], repeated_block(1, block));
}

#[test]
fn block_journal_lba_map_leaves_base_bytes_for_unmapped_runs() {
    let mut overlay = BlockJournalOverlay::new();
    let device_id = DeviceId::from_raw(11);
    let block = 4096_usize;
    overlay
        .apply_commit(&journal_commit(device_id, 1, block as u64, vec![4; block]), block as u64)
        .unwrap();
    assert_eq!(overlay.lba_run_count(device_id), 1);

    let mut read = vec![9; block * 3];
    overlay
        .apply_read_overlay(
            &LocalCoordinator::new(),
            device_id,
            range(0, (block * 3) as u64),
            ReadVerification::RequireVerified,
            &mut read,
        )
        .unwrap();
    assert_eq!(&read[..block], repeated_block(9, block));
    assert_eq!(&read[block..block * 2], repeated_block(4, block));
    assert_eq!(&read[block * 2..], repeated_block(9, block));
}

#[test]
fn block_journal_lba_map_uses_device_block_size_not_fixed_4k() {
    let mut overlay = BlockJournalOverlay::new();
    let device_id = DeviceId::from_raw(12);
    let block = 64 * 1024_usize;
    overlay
        .apply_commit(&journal_commit(device_id, 1, 0, vec![5; block * 2]), block as u64)
        .unwrap();
    overlay
        .apply_commit(&journal_commit(device_id, 2, block as u64, vec![6; block]), block as u64)
        .unwrap();
    assert_eq!(overlay.lba_run_count(device_id), 2);

    let mut read = vec![0; block * 2];
    overlay
        .apply_read_overlay(
            &LocalCoordinator::new(),
            device_id,
            range(0, (block * 2) as u64),
            ReadVerification::RequireVerified,
            &mut read,
        )
        .unwrap();
    assert_eq!(&read[..block], repeated_block(5, block));
    assert_eq!(&read[block..], repeated_block(6, block));
}

#[test]
fn block_journal_lba_map_rejects_unaligned_overlay_entry() {
    let mut overlay = BlockJournalOverlay::new();
    let device_id = DeviceId::from_raw(13);
    let block = 4096_u64;
    let error = overlay
        .apply_commit(&journal_commit(device_id, 1, 1, vec![1; block as usize]), block)
        .unwrap_err();
    assert!(matches!(error, StorageError::Corrupt { .. }));
}

#[test]
fn block_journal_lba_map_contiguous_inline_write_creates_single_shared_run() {
    let mut overlay = BlockJournalOverlay::new();
    let device_id = DeviceId::from_raw(14);
    let block = 4096_usize;
    let write_len = 1024 * 1024_usize;
    overlay
        .apply_commit(&journal_commit(device_id, 1, 0, vec![8; write_len]), block as u64)
        .unwrap();

    assert_eq!(overlay.lba_run_count(device_id), 1);
    assert_eq!(overlay.inline_payload_count(device_id), 1);
}

#[test]
fn block_journal_lba_map_contiguous_batch_entries_create_single_fragmented_run() {
    let mut overlay = BlockJournalOverlay::new();
    let device_id = DeviceId::from_raw(17);
    let block = 4096_usize;
    let writes = (0..256_usize)
        .map(|index| {
            ((index * block) as u64, repeated_block(index.wrapping_rem(251) as u8, block))
        })
        .collect::<Vec<_>>();
    overlay
        .apply_commit(&journal_commit_from_writes(device_id, 1, writes.clone()), block as u64)
        .unwrap();

    assert_eq!(overlay.lba_run_count(device_id), 1);
    assert_eq!(overlay.inline_fragment_count(device_id), 256);
    let mut read = vec![0; block * 256];
    overlay
        .apply_read_overlay(
            &LocalCoordinator::new(),
            device_id,
            range(0, (block * 256) as u64),
            ReadVerification::RequireVerified,
            &mut read,
        )
        .unwrap();
    let expected = writes.into_iter().flat_map(|(_, bytes)| bytes).collect::<Vec<_>>();
    assert_eq!(read, expected);
}

#[test]
fn block_journal_lba_map_reads_segment_ref_run() {
    let mut overlay = BlockJournalOverlay::new();
    let device_id = DeviceId::from_raw(15);
    let block = 4096_usize;
    let mut storage = LocalCoordinator::new();
    let payload = [repeated_block(1, block), repeated_block(2, block)].concat();
    let receipt = storage
        .write_segment_for_owner(MappingOwner::BlockDevice(device_id), payload)
        .unwrap();
    overlay
        .apply_commit(
            &segment_commit(device_id, 1, range(0, (block * 2) as u64), &receipt),
            block as u64,
        )
        .unwrap();
    assert_eq!(overlay.lba_run_count(device_id), 1);

    let mut read = vec![0; block];
    overlay
        .apply_read_overlay(
            &storage,
            device_id,
            range(block as u64, block as u64),
            ReadVerification::RequireVerified,
            &mut read,
        )
        .unwrap();
    assert_eq!(read, repeated_block(2, block));
}

#[test]
fn block_journal_lba_map_coalesces_contiguous_segment_ref_read() {
    let mut overlay = BlockJournalOverlay::new();
    let device_id = DeviceId::from_raw(16);
    let block = 4096_usize;
    let read_len = 1024 * 1024_usize;
    let mut storage = LocalCoordinator::new();
    let payload = (0..read_len).map(|index| (index / block) as u8).collect::<Vec<_>>();
    let receipt = storage
        .write_segment_for_owner(MappingOwner::BlockDevice(device_id), payload.clone())
        .unwrap();
    overlay
        .apply_commit(
            &segment_commit(device_id, 1, range(0, read_len as u64), &receipt),
            block as u64,
        )
        .unwrap();
    assert_eq!(overlay.lba_run_count(device_id), 1);

    let counting = CountingSegmentReadStorage::new(storage);
    let mut read = vec![0; read_len];
    overlay
        .apply_read_overlay(
            &counting,
            device_id,
            range(0, read_len as u64),
            ReadVerification::RequireVerified,
            &mut read,
        )
        .unwrap();

    assert_eq!(read, payload);
    assert_eq!(counting.segment_reads(), vec![range(0, read_len as u64)]);
}

#[test]
fn block_journal_packed_write_record_round_trips_and_expands() {
    let device_id = DeviceId::from_raw(18);
    let first = journal_commit(device_id, 7, 0, repeated_block(41, 4096));
    let second = journal_commit(device_id, 9, 4096, repeated_block(42, 4096));
    let records = vec![
        BlockJournalRecord::Write(first.clone()),
        BlockJournalRecord::Write(second.clone()),
    ];

    let mut encoder = DurableEncoder::new();
    encode_block_journal_record_sequence(&records, &mut encoder).unwrap();
    let decoded = decode_row::<Vec<BlockJournalRecord>>(&encoder.finish()).unwrap();

    assert_eq!(decoded.len(), 1);
    let BlockJournalRecord::PackedWrites(packed) = &decoded[0] else {
        panic!("eligible inline writes should encode as one packed record");
    };
    assert_eq!(packed.device_id, device_id);
    assert_eq!(packed.writer_epoch, WriterEpoch::from_raw(1));
    assert_eq!(packed.first_commit_seq, CommitSeq::from_raw(7));
    assert_eq!(packed.block_size, 4096);
    assert_eq!(packed.entries.len(), 2);
    assert_eq!(packed.entries[0].commit_seq_delta, 0);
    assert_eq!(packed.entries[1].commit_seq_delta, 2);
    assert_eq!(packed.expand_commits().unwrap(), vec![first, second]);
}

#[test]
fn block_journal_packed_write_record_rejects_bad_checksum() {
    let payload = [repeated_block(51, 4096), repeated_block(52, 4096)].concat();
    let packed = PackedBlockJournalWrites {
        device_id: DeviceId::from_raw(19),
        writer_epoch: WriterEpoch::from_raw(3),
        block_size: 4096,
        first_commit_seq: CommitSeq::from_raw(11),
        entries: vec![
            PackedBlockJournalEntry {
                commit_seq_delta: 0,
                lba: 0,
                block_count: 1,
                payload_offset: 0,
                payload_integrity: PayloadIntegrity::Verified,
            },
            PackedBlockJournalEntry {
                commit_seq_delta: 1,
                lba: 1,
                block_count: 1,
                payload_offset: 4096,
                payload_integrity: PayloadIntegrity::Verified,
            },
        ],
        payload_checksum: 0,
        payload_slab: payload,
    };

    let bytes = encode_row(&BlockJournalRecord::PackedWrites(packed)).unwrap();
    assert!(decode_row::<BlockJournalRecord>(&bytes).is_err());
}

#[test]
fn block_journal_packed_write_record_rejects_nonmonotonic_sequences() {
    let payload = [repeated_block(61, 4096), repeated_block(62, 4096)].concat();
    let packed = PackedBlockJournalWrites {
        device_id: DeviceId::from_raw(20),
        writer_epoch: WriterEpoch::from_raw(3),
        block_size: 4096,
        first_commit_seq: CommitSeq::from_raw(11),
        entries: vec![
            PackedBlockJournalEntry {
                commit_seq_delta: 0,
                lba: 0,
                block_count: 1,
                payload_offset: 0,
                payload_integrity: PayloadIntegrity::Verified,
            },
            PackedBlockJournalEntry {
                commit_seq_delta: 0,
                lba: 1,
                block_count: 1,
                payload_offset: 4096,
                payload_integrity: PayloadIntegrity::Verified,
            },
        ],
        payload_checksum: data_log_checksum(&payload),
        payload_slab: payload,
    };

    let bytes = encode_row(&BlockJournalRecord::PackedWrites(packed)).unwrap();
    assert!(decode_row::<BlockJournalRecord>(&bytes).is_err());
}
