use toy_cow::block_api::{
    BlockBatchWrite, BlockRange, ByteRange, DeviceSpec, PayloadIntegrity, ReadVerification,
    WriteDurability,
};
use toy_cow::config::LocalStoreConfig;
use toy_cow::coordinator::LocalCoordinator;
use toy_cow::durable::DurableCoordinator;
use toy_cow::durable_state::DurableStoreState;
use toy_cow::error::StorageError;
use toy_cow::gc::RetentionPolicy;
use toy_cow::id::{BlockCount, BlockIndex, CommitSeq, DeviceId, FileId, KeyspaceId};
use toy_cow::maintenance::{
    empty_compaction_report, AdmissionStep, DurableDataLogPolicy, MaintenancePolicy,
    MaintenanceTickPlan,
};
use toy_cow::native_api::FileBatchWrite;
use toy_cow::observability::StorageEventKind;

const BLOCK: usize = 4096;

fn range(offset: usize, len: usize) -> ByteRange {
    ByteRange { offset: offset as u64, len: len as u64 }
}

fn blocks(start: u64, count: u64) -> BlockRange {
    BlockRange { start: BlockIndex::from_raw(start), blocks: BlockCount::from_raw(count) }
}

fn device(store: &mut LocalCoordinator, logical_blocks: u64) -> DeviceId {
    store.create_device(DeviceSpec { logical_blocks, block_size: BLOCK as u32 }).unwrap()
}

fn file(store: &mut LocalCoordinator) -> (KeyspaceId, FileId) {
    let keyspace = store.create_keyspace().unwrap();
    let file = store.create_file(keyspace, None).unwrap();
    (keyspace, file)
}

fn file_write(offset: u64, bytes: &[u8]) -> FileBatchWrite {
    FileBatchWrite { offset, bytes: bytes.to_vec() }
}

fn image_of(store: LocalCoordinator) -> DurableStoreState {
    DurableStoreState {
        config: store.config,
        metadata: store.metadata,
        storage_nodes: store.storage_nodes,
        append_run_logs: store.append_run_logs,
        next_write_intent: store.next_write_intent,
        next_extent_id: store.next_extent_id,
    }
}

#[test]
fn a_granted_block_write_is_taken_once() {
    let mut store = LocalCoordinator::new();
    let d = device(&mut store, 4);
    let grant = store.issue_block_write_grant(d, blocks(1, 2), WriteDurability::Acknowledged).unwrap();
    let data = [vec![7; BLOCK], vec![8; BLOCK]].concat();
    let receipt = store.write_granted_segment(&grant, data).unwrap();
    let commit = store.submit_block_write_receipt(&grant, receipt).unwrap();
    assert_eq!(commit.device_id, d);
    assert_eq!(commit.range, range(BLOCK, 2 * BLOCK));
    assert_eq!(commit.durability, WriteDurability::Acknowledged);
    let mut buf = vec![0xEE; 4 * BLOCK];
    store.read_device(d, range(0, 4 * BLOCK), &mut buf).unwrap();
    let expected = [vec![0; BLOCK], vec![7; BLOCK], vec![8; BLOCK], vec![0; BLOCK]].concat();
    assert_eq!(buf, expected);
    assert!(matches!(
        store.submit_block_write_receipt(&grant, receipt),
        Err(StorageError::Conflict { .. })
    ));
    store.read_device(d, range(0, 4 * BLOCK), &mut buf).unwrap();
    assert_eq!(buf, expected);
}

#[test]
fn a_granted_file_write_is_taken_while_the_file_is_as_it_was() {
    let mut store = LocalCoordinator::new();
    let (k, f) = file(&mut store);
    let grant = store
        .issue_native_write_grant(k, f, range(0, 10), BLOCK as u64, WriteDurability::Acknowledged)
        .unwrap();
    let stale = store
        .issue_native_write_grant(k, f, range(0, 10), BLOCK as u64, WriteDurability::Acknowledged)
        .unwrap();
    let receipt = store.write_granted_segment(&grant, vec![5; BLOCK]).unwrap();
    let stale_receipt = store.write_granted_segment(&stale, vec![6; BLOCK]).unwrap();
    let commit = store.submit_native_write_receipt(&grant, receipt).unwrap();
    assert_eq!(commit.range, range(0, 10));
    assert_eq!(store.file_info(k, f).unwrap().size, 10);
    assert!(matches!(
        store.submit_native_write_receipt(&stale, stale_receipt),
        Err(StorageError::Conflict { .. })
    ));
    let mut buf = vec![0; 10];
    store.read_file(k, f, range(0, 10), &mut buf).unwrap();
    assert_eq!(buf, vec![5; 10]);
    assert!(matches!(
        store.submit_block_write_receipt(&grant, receipt),
        Err(StorageError::InvalidArgument { .. })
    ));
}

#[test]
fn a_batch_behind_the_reach_of_a_file_is_refused_whole() {
    let mut store = LocalCoordinator::new();
    let (k, f) = file(&mut store);
    store
        .commit_file_batch(k, f, &[file_write(0, b"kept")], WriteDurability::Acknowledged)
        .unwrap();
    let before = store.file_info(k, f).unwrap();
    let beyond = [file_write(0, b"lost"), file_write(BLOCK as u64 - 2, b"abc")];
    assert!(matches!(
        store.commit_file_batch(k, f, &beyond, WriteDurability::Acknowledged),
        Err(StorageError::InvalidArgument { .. })
    ));
    assert_eq!(store.file_info(k, f).unwrap(), before);
    let mut buf = vec![0; 4];
    store.read_file(k, f, range(0, 4), &mut buf).unwrap();
    assert_eq!(buf, b"kept".to_vec());
    let last = [file_write(BLOCK as u64 - 3, b"abc")];
    store.commit_file_batch(k, f, &last, WriteDurability::Acknowledged).unwrap();
    assert_eq!(store.file_info(k, f).unwrap().size, BLOCK as u64);
    let mut nothing: Vec<u8> = Vec::new();
    store
        .read_file_with_verification(
            k,
            f,
            range(BLOCK, 0),
            &mut nothing,
            ReadVerification::RequireVerified,
        )
        .unwrap();
}

#[test]
fn a_served_ticket_is_answered_again() {
    let mut store = LocalCoordinator::new();
    let (k, f) = file(&mut store);
    let stream = store.open_append_stream(k, f).unwrap();
    store.append_stream(&stream, b"hello", WriteDurability::Acknowledged).unwrap();
    let ticket = store.submit_append_publish(&stream, 5).unwrap();
    let first = store.wait_append_publish(&ticket, WriteDurability::Flushed).unwrap();
    store.append_stream(&stream, b" you", WriteDurability::Acknowledged).unwrap();
    store.publish_append_stream(&stream, 9, WriteDurability::Acknowledged).unwrap();
    let head = store.file_info(k, f).unwrap();
    let again = store.wait_append_publish(&ticket, WriteDurability::Acknowledged).unwrap();
    assert_eq!(again, first);
    assert_eq!(again.durability, WriteDurability::Flushed);
    assert_eq!(store.file_info(k, f).unwrap(), head);
}

#[test]
fn a_refused_append_leaves_the_streams() {
    let mut store = LocalCoordinator::new();
    let (k, f) = file(&mut store);
    let stream = store.open_append_stream(k, f).unwrap();
    store.append_stream(&stream, b"abc", WriteDurability::Acknowledged).unwrap();
    assert!(matches!(
        store.append_stream(&stream, b"", WriteDurability::Acknowledged),
        Err(StorageError::InvalidArgument { .. })
    ));
    store.publish_append_stream(&stream, 3, WriteDurability::Acknowledged).unwrap();
    let mut buf = vec![0; 3];
    store.read_file(k, f, range(0, 3), &mut buf).unwrap();
    assert_eq!(buf, b"abc".to_vec());
}

#[test]
fn a_sweep_leaves_what_a_stream_has_taken_in() {
    let mut store = LocalCoordinator::new();
    let (k, f) = file(&mut store);
    let stream = store.open_append_stream(k, f).unwrap();
    store.append_stream(&stream, b"unseen", WriteDurability::Acknowledged).unwrap();
    let keep = RetentionPolicy { keep_history_from: CommitSeq::from_raw(1 << 20) };
    store.run_metadata_custodian(keep).unwrap();
    store.publish_append_stream(&stream, 6, WriteDurability::Acknowledged).unwrap();
    let mut buf = vec![0; 6];
    store.read_file(k, f, range(0, 6), &mut buf).unwrap();
    assert_eq!(buf, b"unseen".to_vec());
}

#[test]
fn a_device_that_was_never_written_reads_as_zeros_under_every_check() {
    let mut store = LocalCoordinator::new();
    let unchecked = device(&mut store, 2);
    let fresh = device(&mut store, 2);
    store
        .write_device_with_integrity(
            unchecked,
            0,
            &vec![1; BLOCK],
            WriteDurability::Acknowledged,
            PayloadIntegrity::Unchecked,
        )
        .unwrap();
    let mut buf = vec![9; 2 * BLOCK];
    store
        .read_device_with_verification(
            fresh,
            range(0, 2 * BLOCK),
            &mut buf,
            ReadVerification::RequireVerified,
        )
        .unwrap();
    assert_eq!(buf, vec![0; 2 * BLOCK]);
    let mut held = vec![9; BLOCK];
    assert!(store
        .read_device_with_verification(
            unchecked,
            range(0, BLOCK),
            &mut held,
            ReadVerification::RequireVerified,
        )
        .is_err());
    assert_eq!(held, vec![9; BLOCK]);
}

#[test]
fn one_policy_leaves_no_more_runs_than_writes() {
    let mut store = LocalCoordinator::new();
    let d = device(&mut store, 8);
    let write = |block: usize, value: u8, count: usize| BlockBatchWrite {
        offset: (block * BLOCK) as u64,
        bytes: vec![value; count * BLOCK],
        payload_integrity: PayloadIntegrity::Verified,
    };
    let commit = store
        .commit_block_batch(
            d,
            &[write(0, 1, 4), write(1, 2, 1), write(4, 3, 1), write(6, 4, 2)],
            WriteDurability::Acknowledged,
        )
        .unwrap();
    assert_eq!(commit.write_count, 4);
    assert_eq!(commit.collapsed_range_count, 2);
    assert_eq!(commit.committed_bytes, 7 * BLOCK as u64);
}

#[test]
fn a_sound_image_opens_and_reads_alike() {
    let mut store = LocalCoordinator::new();
    let d = device(&mut store, 8);
    let (k, f) = file(&mut store);
    store.write_device(d, BLOCK as u64, &vec![4; BLOCK], WriteDurability::Flushed).unwrap();
    store.commit_file_batch(k, f, &[file_write(2, b"file")], WriteDurability::Flushed).unwrap();
    let stream = store.open_append_stream(k, f).unwrap();
    store.append_stream(&stream, b"more", WriteDurability::Flushed).unwrap();
    let image = image_of(store);
    assert!(image.is_sound());
    let mut reopened = LocalCoordinator::open_durable_state(image).unwrap();
    let mut buf = vec![0; 2 * BLOCK];
    reopened.read_device(d, range(0, 2 * BLOCK), &mut buf).unwrap();
    assert_eq!(buf, [vec![0; BLOCK], vec![4; BLOCK]].concat());
    let mut text = vec![0; 6];
    reopened.read_file(k, f, range(0, 6), &mut text).unwrap();
    assert_eq!(text, b"\0\0file".to_vec());
    reopened.publish_append_stream(&stream, 10, WriteDurability::Acknowledged).unwrap();
    let mut text = vec![0; 10];
    reopened.read_file(k, f, range(0, 10), &mut text).unwrap();
    assert_eq!(text, b"\0\0filemore".to_vec());
}

#[test]
fn an_image_that_is_not_sound_is_refused() {
    let written = || {
        let mut store = LocalCoordinator::new();
        let d = device(&mut store, 8);
        store.write_device(d, 0, &vec![4; BLOCK], WriteDurability::Flushed).unwrap();
        image_of(store)
    };
    let corrupt = |image: DurableStoreState| {
        assert!(!image.is_sound());
        matches!(
            LocalCoordinator::open_durable_state(image),
            Err(StorageError::Corrupt { .. })
        )
    };
    let mut lost = written();
    lost.storage_nodes.segments = toy_cow::idmap::IdMap::new();
    assert!(corrupt(lost));
    let mut behind = written();
    behind.metadata.next_commit_seq = 1;
    assert!(corrupt(behind));
    let mut unnumbered = written();
    unnumbered.metadata.trees.next_metadata_node_id = 1;
    assert!(corrupt(unnumbered));
    let mut homeless = written();
    homeless.storage_nodes.node_ids = vec![];
    assert!(corrupt(homeless));
    let mut flipped = written();
    let (id, _) = flipped.storage_nodes.segments.entry_at(0);
    let mut record = flipped.storage_nodes.segments.remove(id).unwrap();
    record.bytes[0] ^= 1;
    flipped.storage_nodes.segments.insert(id, record);
    assert!(corrupt(flipped));
    let mut odd = written();
    odd.config.block_size = 3;
    assert!(matches!(
        LocalCoordinator::open_durable_state(odd),
        Err(StorageError::InvalidArgument { .. })
    ));
}

#[test]
fn maintenance_is_counted_and_told() {
    let policy = MaintenancePolicy {
        write_backpressure_enabled: true,
        ..MaintenancePolicy::manual(DurableDataLogPolicy {
            max_log_bytes: 1 << 20,
            max_compaction_copy_bytes: 1 << 16,
        })
    };
    let mut store = DurableCoordinator::open_with_maintenance_policy(
        None,
        LocalStoreConfig::default(),
        policy,
        None,
    )
    .unwrap();
    let plan = MaintenanceTickPlan {
        unavailable: Some("logs are full"),
        compactions: vec![vec![], vec![]],
        selected_logs: 2,
        skipped_logs: 3,
        next_cursor: None,
    };
    store.plan_maintenance(&plan);
    store.plan_maintenance(&plan);
    assert_eq!(store.maintenance.cursor, None);
    let mut first = empty_compaction_report();
    first.bytes_copied = 5;
    let mut second = empty_compaction_report();
    second.bytes_deleted = 7;
    let report = store.run_maintenance_tick(&plan, &vec![first, second]).unwrap();
    assert_eq!((report.bytes_copied, report.bytes_deleted), (5, 7));
    assert!(matches!(store.admit_write(Some(&plan)), AdmissionStep::Refuse(_)));
    let counters = store.local.observability.counters;
    assert_eq!(counters.maintenance_plans, 2);
    assert_eq!(counters.maintenance_logs_selected, 4);
    assert_eq!(counters.maintenance_logs_skipped, 6);
    assert_eq!(counters.maintenance_ticks, 1);
    assert_eq!(counters.maintenance_bytes_copied, 5);
    assert_eq!(counters.maintenance_bytes_deleted, 7);
    let events = store.drain_events(8);
    let kinds: Vec<StorageEventKind> = events.iter().map(|event| event.kind).collect();
    assert_eq!(
        kinds,
        vec![
            StorageEventKind::MaintenancePlanned,
            StorageEventKind::MaintenancePlanned,
            StorageEventKind::MaintenanceTicked,
            StorageEventKind::CoordinatorWriteUnavailable,
        ]
    );
    assert_eq!(events[3].reason, Some("logs are full"));
    assert_eq!(events[0].reason, None);
    assert_eq!(store.maintenance_policy(), policy);
}
