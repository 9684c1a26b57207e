use toy_cow::block_api::{
    BlockBatchWrite, ByteRange, DeviceSpec, PayloadIntegrity, ReadVerification, WriteDurability,
};
use toy_cow::checksum::data_log_checksum;
use toy_cow::coordinator::LocalCoordinator;
use toy_cow::error::StorageError;
use toy_cow::gc::RetentionPolicy;
use toy_cow::id::{CommitSeq, DeviceId, WriterEpoch};
use toy_cow::idmap::IdMap;
use toy_cow::journal_frames::{journal_frame, journal_frames};
use toy_cow::journal_recovery::replay_block_journal;
use toy_cow::journal_replay::JournalStep;
use toy_cow::maintenance::{combine_reports, empty_compaction_report, ticks_again};
use toy_cow::maintenance::MaintenanceTickPlan;
use toy_cow::metadata_records::SegmentPayloadIntegrity;
use toy_cow::native_api::FileBatchWrite;
use toy_cow::observability::StorageEventKind;
use toy_cow::segment_records::SegmentLifecycleState;

const BLOCK: usize = 4096;

fn device(store: &mut LocalCoordinator, logical_blocks: u64) -> DeviceId {
    store.create_device(DeviceSpec { logical_blocks, block_size: BLOCK as u32 }).unwrap()
}

fn whole(offset: usize) -> ByteRange {
    ByteRange { offset: offset as u64, len: BLOCK as u64 }
}

#[test]
fn a_write_is_stored_under_its_policy() {
    let mut store = LocalCoordinator::new();
    let d = device(&mut store, 4);
    let data = vec![3; BLOCK];
    let ack = WriteDurability::Acknowledged;
    store.write_device(d, 0, &data, ack).unwrap();
    store
        .write_device_with_integrity(d, BLOCK as u64, &data, ack, PayloadIntegrity::Unchecked)
        .unwrap();
    let (_, first) = store.storage_nodes.segments.entry_at(0);
    let (_, second) = store.storage_nodes.segments.entry_at(1);
    assert_eq!(
        first.entry.receipt.unwrap().integrity,
        SegmentPayloadIntegrity::Crc32c(data_log_checksum(&data))
    );
    assert_eq!(second.entry.receipt.unwrap().integrity, SegmentPayloadIntegrity::Unchecked);
    assert_eq!(first.entry.state, SegmentLifecycleState::Referenced);
    assert_eq!(second.entry.state, SegmentLifecycleState::Referenced);
    let mut buf = vec![0; BLOCK];
    let verified = ReadVerification::RequireVerified;
    store.read_device_with_verification(d, whole(0), &mut buf, verified).unwrap();
    assert_eq!(buf, data);
    assert!(matches!(
        store.read_device_with_verification(d, whole(BLOCK), &mut buf, verified),
        Err(StorageError::Corrupt { .. })
    ));
    store.read_device(d, whole(BLOCK), &mut buf).unwrap();
    assert_eq!(buf, data);
}

#[test]
fn a_file_batch_is_stored_under_its_policy() {
    let mut store = LocalCoordinator::new();
    let keyspace = store.create_keyspace().unwrap();
    let file = store.create_file(keyspace, None).unwrap();
    let writes = [FileBatchWrite { offset: 3, bytes: vec![5; 10] }];
    let ack = WriteDurability::Acknowledged;
    store.commit_file_batch(keyspace, file, &writes, ack).unwrap();
    let mut buf = vec![0; 4];
    let part = ByteRange { offset: 5, len: 4 };
    let verified = ReadVerification::RequireVerified;
    store.read_file_with_verification(keyspace, file, part, &mut buf, verified).unwrap();
    assert_eq!(buf, vec![5; 4]);
    store
        .commit_file_batch_with_integrity(keyspace, file, &writes, ack, PayloadIntegrity::Unchecked)
        .unwrap();
    assert!(store
        .read_file_with_verification(keyspace, file, part, &mut buf, verified)
        .is_err());
    store.read_file(keyspace, file, part, &mut buf).unwrap();
}

#[test]
fn attempts_are_counted_once() {
    let mut store = LocalCoordinator::new();
    let d = device(&mut store, 4);
    let ack = WriteDurability::Acknowledged;
    let write = BlockBatchWrite {
        offset: 0,
        bytes: vec![1; BLOCK],
        payload_integrity: PayloadIntegrity::Verified,
    };
    store.commit_block_batch(d, &[write], ack).unwrap();
    assert_eq!(store.observability.counters.coordinator_write_attempts, 1);
    assert_eq!(store.observability.counters.coordinator_write_publish_successes, 1);
    let grant = store
        .issue_block_write_grant(
            d,
            toy_cow::block_api::BlockRange {
                start: toy_cow::id::BlockIndex::from_raw(1),
                blocks: toy_cow::id::BlockCount::from_raw(1),
            },
            ack,
        )
        .unwrap();
    let receipt = store.write_granted_segment(&grant, vec![2; BLOCK]).unwrap();
    store.submit_block_write_receipt(&grant, receipt).unwrap();
    assert_eq!(store.observability.counters.coordinator_write_attempts, 2);
    assert_eq!(store.observability.counters.coordinator_write_publish_successes, 2);
    let started = store
        .drain_events(64)
        .iter()
        .filter(|event| event.kind == StorageEventKind::CoordinatorWriteStarted)
        .count();
    assert_eq!(started, 2);
}

#[test]
fn a_refused_append_uses_up_its_number() {
    let mut store = LocalCoordinator::new();
    let keyspace = store.create_keyspace().unwrap();
    let file = store.create_file(keyspace, None).unwrap();
    let stream = store.open_append_stream(keyspace, file).unwrap();
    store.abort_append_stream(&stream).unwrap();
    let ack = WriteDurability::Acknowledged;
    assert!(store.append_stream(&stream, &[1], ack).is_err());
    assert_eq!(store.metadata.next_append_ticket_id, 2);
    assert!(store.submit_append_publish(&stream, 1).is_err());
    assert_eq!(store.metadata.next_append_publish_ticket_id, 2);
}

#[test]
fn a_served_publish_is_found_again() {
    let mut store = LocalCoordinator::new();
    let keyspace = store.create_keyspace().unwrap();
    let file = store.create_file(keyspace, None).unwrap();
    let stream = store.open_append_stream(keyspace, file).unwrap();
    let ack = WriteDurability::Acknowledged;
    store.append_stream(&stream, &[1, 2, 3], ack).unwrap();
    let ticket = store.submit_append_publish(&stream, 3).unwrap();
    let first = store.wait_append_publish(&ticket, ack).unwrap();
    store.append_stream(&stream, &[4], ack).unwrap();
    store.publish_append_stream(&stream, 4, ack).unwrap();
    let again = store.wait_append_publish(&ticket, WriteDurability::Flushed).unwrap();
    assert_eq!(first, again);
    assert_eq!(again.durability, ack);
}

#[test]
fn a_sweep_takes_out_what_nothing_needs() {
    let mut store = LocalCoordinator::new();
    let d = device(&mut store, 4);
    let ack = WriteDurability::Acknowledged;
    store.write_device(d, 0, &vec![1; BLOCK], ack).unwrap();
    store.write_device(d, 0, &vec![2; BLOCK], ack).unwrap();
    let nodes = store.metadata.trees.nodes.len();
    let from = CommitSeq::from_raw(store.metadata.next_commit_seq);
    let report =
        store.run_metadata_custodian(RetentionPolicy { keep_history_from: from }).unwrap();
    assert!(store.metadata.trees.nodes.len() < nodes);
    assert_eq!(report.mark.reachable_nodes, store.metadata.trees.nodes.len());
    assert_eq!(report.mark.reachable_segments, 1);
    assert_eq!(report.sweep.released_segments.len(), 1);
}

#[test]
fn a_journal_moves_the_store_on() {
    let mut store = LocalCoordinator::new();
    let d = device(&mut store, 4);
    let steps = vec![
        JournalStep::Lease { device_id: d, writer_epoch: WriterEpoch::from_raw(4) },
        JournalStep::Flush {
            device_id: d,
            writer_epoch: WriterEpoch::from_raw(3),
            durable_through: CommitSeq::from_raw(9),
        },
    ];
    let overlay = replay_block_journal(&mut store, &steps, &IdMap::new()).unwrap();
    assert_eq!(overlay.durable_through(d), CommitSeq::from_raw(9));
    assert_eq!(store.metadata.next_commit_seq, 10);
    assert_eq!(store.acquire_block_writer(d).unwrap().writer_epoch, WriterEpoch::from_raw(5));
    let unknown = vec![JournalStep::Lease {
        device_id: DeviceId::from_raw(77),
        writer_epoch: WriterEpoch::from_raw(1),
    }];
    assert!(matches!(
        replay_block_journal(&mut store, &unknown, &IdMap::new()),
        Err(StorageError::NotFound { .. })
    ));
}

#[test]
fn reports_of_commands_add_up() {
    let mut first = empty_compaction_report();
    first.bytes_copied = 2;
    let mut second = empty_compaction_report();
    second.bytes_copied = 3;
    let whole = combine_reports(&vec![first, second]).unwrap();
    assert_eq!(whole.bytes_copied, 5);
    let mut full = empty_compaction_report();
    full.bytes_deleted = u64::MAX;
    let mut one = empty_compaction_report();
    one.bytes_deleted = 1;
    assert!(matches!(
        combine_reports(&vec![full, one]),
        Err(StorageError::Conflict { .. })
    ));
    assert_eq!(combine_reports(&vec![]).unwrap().deleted_logs.len(), 0);
    let mut plan = MaintenanceTickPlan {
        unavailable: None,
        compactions: vec![],
        selected_logs: 0,
        skipped_logs: 0,
        next_cursor: None,
    };
    assert!(!ticks_again(None));
    assert!(!ticks_again(Some(&plan)));
    plan.compactions.push(vec![]);
    assert!(ticks_again(Some(&plan)));
}

#[test]
fn journal_frames_are_read_back() {
    let first = journal_frame(&[1, 2, 3]);
    assert_eq!(first[..8], [0, 0, 0, 0, 0, 0, 0, 3]);
    let mut bytes = [first.clone(), journal_frame(&[])].concat();
    assert_eq!(journal_frames(&bytes).unwrap(), vec![vec![1, 2, 3], vec![]]);
    bytes.extend_from_slice(&first[..17]);
    assert_eq!(journal_frames(&bytes).unwrap().len(), 2);
    bytes[16] = 9;
    assert!(matches!(journal_frames(&bytes), Err(StorageError::Corrupt { .. })));
}

#[test]
fn a_tree_is_rendered_line_by_line() {
    let mut store = LocalCoordinator::new();
    let d = device(&mut store, 4);
    store.write_device(d, 0, &vec![1; BLOCK], WriteDurability::Acknowledged).unwrap();
    let (_, head) = store.metadata.device_heads.entry_at(0);
    let root = head.shard_roots[0];
    let ids = store.metadata_tree_node_ids(root).unwrap();
    let text = store.render_metadata_tree(root).unwrap();
    assert!(text.ends_with('\n'));
    let nodes: Vec<&str> =
        text.lines().filter(|line| line.trim_start().starts_with("node ")).collect();
    assert_eq!(nodes.len(), ids.len());
    for (line, id) in nodes.iter().zip(&ids) {
        assert!(line.trim_start().starts_with(&format!("node {} ", id.raw())));
    }
}
