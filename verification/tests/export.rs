use toy_cow::block_api::{ByteRange, DeviceSpec, WriteDurability};
use toy_cow::coordinator::LocalCoordinator;
use toy_cow::data_log::{
    DataLogState, DurableDataLogRef, PendingDataLogAppend, PendingDataLogManifest,
    SegmentPlacementRow,
};
use toy_cow::durable_state::{adds_to_previous, exports_everything, DurableStoreState};
use toy_cow::error::StorageError;
use toy_cow::id::{
    CommitSeq, DeviceId, SegmentId, StorageNodeId, WriterEpoch,
};
use toy_cow::idmap::IdMap;
use toy_cow::journal_records::{BlockJournalCommit, BlockJournalEntry};
use toy_cow::journal_segments::{
    recover_block_segment_rows, FoundSegmentRecord, WantedSegment,
};
use toy_cow::metadata_records::{MappingOwner, SegmentPayloadIntegrity};
use toy_cow::persist_rows::{pre_root_catalog_entry, prunes_history};
use toy_cow::row_sync::persist_row_native_state;
use toy_cow::segment_records::SegmentLifecycleState;
use toy_cow::stream_persist::{
    gather_stream_append, missing_log_refs, settle_lane, stream_batch_totals, unlisted_log,
    StreamPersistPlan,
};

const BLOCK: usize = 4096;

fn node() -> StorageNodeId {
    StorageNodeId::from_raw(1)
}

fn store_with_write() -> (LocalCoordinator, DeviceId) {
    let mut store = LocalCoordinator::new();
    let device = store
        .create_device(DeviceSpec { logical_blocks: 16, block_size: BLOCK as u32 })
        .unwrap();
    store.write_device(device, 0, &vec![4; BLOCK], WriteDurability::Acknowledged).unwrap();
    (store, device)
}

fn manifest(log_id: u64, total_bytes: u64) -> PendingDataLogManifest {
    PendingDataLogManifest {
        storage_node: node(),
        log_id,
        state: DataLogState::StreamActive,
        total_bytes,
        needs_dir_sync: false,
    }
}

#[test]
fn the_first_export_writes_every_row() {
    let (store, device) = store_with_write();
    let rows = persist_row_native_state(store.metadata(), None).unwrap();
    assert_eq!(rows.device_specs.puts.len(), 1);
    assert_eq!(rows.device_specs.puts[0].0, device.raw().to_string());
    assert_eq!(rows.metadata_nodes.puts.len(), store.metadata().trees.nodes.len());
    assert_eq!(rows.shard_commits.puts.len(), 1);
    assert!(rows.shard_commits.kept.is_some());
    let shards = store.metadata().device_heads.get(device.raw()).unwrap().shard_roots.len();
    assert_eq!(rows.device_heads.shards.len(), shards);
    assert_eq!(rows.device_heads.manifests[0].1.shard_count, shards as u64);
}

#[test]
fn catalog_shards_are_written_as_maps() {
    let mut store = LocalCoordinator::new();
    store.create_keyspace().unwrap();
    let rows = persist_row_native_state(store.metadata(), None).unwrap();
    let (id, _) = store.metadata().keyspace_catalog_shards.entry_at(0);
    assert_eq!(
        rows.keyspace_catalog_shards.puts.len(),
        store.metadata().keyspace_catalog_shards.len()
    );
    assert_eq!(rows.keyspace_catalog_shards.puts[0].0, id.to_string());
    let mut expected = id.to_be_bytes().to_vec();
    expected.extend(0_u64.to_be_bytes());
    assert_eq!(rows.keyspace_catalog_shards.puts[0].1, expected);
}

#[test]
fn a_later_export_writes_only_what_is_new() {
    let (mut store, device) = store_with_write();
    let cursor = store.durable_export_cursor();
    let before = store.metadata().trees.nodes.len();
    store.write_device(device, 0, &vec![5; BLOCK], WriteDurability::Acknowledged).unwrap();
    let rows = persist_row_native_state(store.metadata(), Some(&cursor)).unwrap();
    assert_eq!(rows.metadata_nodes.puts.len(), store.metadata().trees.nodes.len() - before);
    assert_eq!(rows.shard_commits.puts.len(), 1);
    assert!(rows.shard_commits.kept.is_none());
    assert!(!prunes_history(Some(&cursor), store.metadata().next_gc_epoch));
    assert!(adds_to_previous(Some(&cursor), store.metadata().next_gc_epoch));
    assert!(!adds_to_previous(None, store.metadata().next_gc_epoch));
}

#[test]
fn exported_segments_are_split_by_what_is_known() {
    let (mut store, device) = store_with_write();
    let first = store.segments_for_durable_persist(&IdMap::new());
    assert_eq!(first.new_segments.len(), 1);
    store.write_device(device, 0, &vec![5; BLOCK], WriteDurability::Acknowledged).unwrap();
    let second = store.segments_for_durable_persist(&first.current);
    assert_eq!(second.current.len(), 2);
    assert_eq!(second.new_segments.len(), 1);
    let through = store.segments_for_durable_persist_through(
        store.metadata(),
        false,
        &first.current,
    );
    assert_eq!(through.new_segments, second.new_segments);
    let next = store.metadata().next_commit_seq;
    assert!(exports_everything(CommitSeq::from_raw(next - 1), next));
    assert!(!exports_everything(CommitSeq::from_raw(next - 2), next));
}

#[test]
fn a_store_is_made_of_its_durable_state() {
    let (store, device) = store_with_write();
    let again = LocalCoordinator::from_durable_state(DurableStoreState {
        config: store.config,
        metadata: store.metadata,
        storage_nodes: store.storage_nodes,
        append_run_logs: store.append_run_logs,
        next_write_intent: store.next_write_intent,
        next_extent_id: store.next_extent_id,
    })
    .unwrap();
    let mut buf = vec![0; BLOCK];
    again.read_device(device, ByteRange { offset: 0, len: BLOCK as u64 }, &mut buf).unwrap();
    assert_eq!(buf, vec![4; BLOCK]);
}

#[test]
fn entries_are_pending_before_their_metadata() {
    let (store, _) = store_with_write();
    let (id, record) = store.storage_nodes.segments.entry_at(0);
    assert_eq!(record.entry.state, SegmentLifecycleState::Referenced);
    let mut pending = IdMap::new();
    pending.insert(id, ());
    let written = pre_root_catalog_entry(SegmentId::from_raw(id), record.entry, &pending);
    assert_eq!(written.state, SegmentLifecycleState::DurablePendingMetadata);
    let kept = pre_root_catalog_entry(SegmentId::from_raw(id), record.entry, &IdMap::new());
    assert_eq!(kept.state, SegmentLifecycleState::Referenced);
}

#[test]
fn streams_are_persisted_with_their_logs() {
    let mut store = LocalCoordinator::new();
    let keyspace = store.create_keyspace().unwrap();
    let file = store.create_file(keyspace, None).unwrap();
    let stream = store.open_append_stream(keyspace, file).unwrap();
    store.append_stream(&stream, b"hello", WriteDurability::Acknowledged).unwrap();
    let live = store.metadata().append_streams.get(stream.stream_id.raw()).unwrap();
    let records = live.state.records.clone();
    let used = DurableDataLogRef {
        storage_node: records[0].run.storage_node,
        log_id: records[0].run.log_id,
    };
    let plans = vec![StreamPersistPlan { stream, records, durable_through: 5 }];
    let totals = stream_batch_totals(&plans);
    assert_eq!((totals.plans, totals.records, totals.payload_bytes), (1, 1, 5));

    let empty = gather_stream_append(&plans, &IdMap::new());
    assert_eq!(missing_log_refs(&plans, &empty), vec![used]);
    assert_eq!(unlisted_log(used, 77).total_bytes, 77);

    let mut lane = PendingDataLogAppend::new();
    lane.logs.push(PendingDataLogManifest {
        storage_node: used.storage_node,
        log_id: used.log_id,
        ..manifest(0, 9)
    });
    lane.logs.push(manifest(used.log_id + 1, 3));
    let mut lanes = IdMap::new();
    lanes.insert(stream.stream_id.raw(), lane);
    let gathered = gather_stream_append(&plans, &lanes);
    assert_eq!(gathered.logs.len(), 1);
    assert_eq!(gathered.logs[0].total_bytes, 9);
    assert!(missing_log_refs(&plans, &gathered).is_empty());

    let mut lane = lanes.remove(stream.stream_id.raw()).unwrap();
    settle_lane(&mut lane, &plans[0]);
    assert_eq!(lane.logs.len(), 1);
    assert_eq!(lane.logs[0].log_id, used.log_id + 1);
}

#[test]
fn journaled_segments_become_referenced() {
    let mut store = LocalCoordinator::new();
    let device = DeviceId::from_raw(3);
    let receipt = store
        .write_segment_for_owner(MappingOwner::BlockDevice(device), vec![1; BLOCK])
        .unwrap();
    let mut commit = BlockJournalCommit {
        device_id: device,
        writer_epoch: WriterEpoch::from_raw(1),
        commit_seq: CommitSeq::from_raw(1),
        write_count: 1,
        collapsed_range_count: 1,
        committed_bytes: BLOCK as u64,
        entries: vec![BlockJournalEntry::Segment {
            range: ByteRange { offset: 0, len: BLOCK as u64 },
            storage_node: receipt.storage_node,
            segment_id: receipt.segment_id,
            segment_offset: 0,
            integrity: receipt.integrity,
        }],
    };
    store.mark_block_journal_segment_refs_referenced(&commit).unwrap();
    let state = store.storage_nodes.segments.get(receipt.segment_id.raw()).unwrap().entry.state;
    assert_eq!(state, SegmentLifecycleState::Referenced);
    commit.entries.push(BlockJournalEntry::Segment {
        range: ByteRange { offset: BLOCK as u64, len: BLOCK as u64 },
        storage_node: receipt.storage_node,
        segment_id: SegmentId::from_raw(999),
        segment_offset: 0,
        integrity: receipt.integrity,
    });
    assert!(matches!(
        store.mark_block_journal_segment_refs_referenced(&commit),
        Err(StorageError::NotFound { .. })
    ));
}

#[test]
fn lost_segments_are_recovered_or_corrupt() {
    let wanted = WantedSegment {
        storage_node: node(),
        segment_id: SegmentId::from_raw(5),
        integrity: SegmentPayloadIntegrity::Unchecked,
        device_id: DeviceId::from_raw(3),
    };
    let found = FoundSegmentRecord {
        placement: SegmentPlacementRow {
            storage_node: node(),
            segment_id: SegmentId::from_raw(5),
            data_log_id: 8,
            record_offset: 0,
            record_bytes: 64,
            payload_offset: 32,
            payload_bytes: 32,
            integrity: SegmentPayloadIntegrity::Unchecked,
        },
        physical_record_end: 64,
        log_state: None,
    };
    let append = recover_block_segment_rows(&vec![wanted], &vec![Some(found)]).unwrap();
    assert_eq!(append.placements.len(), 1);
    assert_eq!(append.logs[0].log_id, 8);
    assert_eq!(append.logs[0].total_bytes, 64);
    assert!(matches!(
        recover_block_segment_rows(&vec![wanted], &vec![None]),
        Err(StorageError::Corrupt { .. })
    ));
}
