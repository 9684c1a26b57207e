use toy_cow::block_api::{
    BlockBatchWrite, ByteRange, DeviceSpec, PayloadIntegrity, WriteDurability,
};
use toy_cow::config::LocalStoreConfig;
use toy_cow::durable::{DurableCoordinator, PersistDue};
use toy_cow::durable_publish::PublishProgress;
use toy_cow::error::StorageError;
use toy_cow::gc::RetentionPolicy;
use toy_cow::id::{CommitSeq, DeviceId};
use toy_cow::idmap::IdMap;
use toy_cow::maintenance::{
    AdmissionStep, DurableDataLogPolicy, MaintenancePolicy, MaintenanceTickPlan,
};
use toy_cow::native_api::FileBatchWrite;

const BLOCK: usize = 4096;

fn policy(max_log_bytes: u64) -> MaintenancePolicy {
    MaintenancePolicy::manual(DurableDataLogPolicy {
        max_log_bytes,
        max_compaction_copy_bytes: 1 << 16,
    })
}

fn open(policy: MaintenancePolicy) -> DurableCoordinator {
    DurableCoordinator::open_with_maintenance_policy(None, LocalStoreConfig::default(), policy, None)
        .unwrap()
}

fn store_with_device() -> (DurableCoordinator, DeviceId) {
    let mut store = open(policy(1 << 20));
    let device = store
        .create_device(DeviceSpec { logical_blocks: 8, block_size: BLOCK as u32 })
        .unwrap();
    assert!(matches!(store.due, PersistDue::Everything));
    (store, device)
}

fn batch(offset: usize, value: u8, len: usize) -> BlockBatchWrite {
    BlockBatchWrite {
        offset: offset as u64,
        bytes: vec![value; len],
        payload_integrity: PayloadIntegrity::Verified,
    }
}

#[test]
fn a_policy_without_log_room_is_refused() {
    let refused = DurableCoordinator::open_with_maintenance_policy(
        None,
        LocalStoreConfig::default(),
        policy(0),
        None,
    );
    assert!(matches!(refused, Err(StorageError::InvalidArgument { .. })));
    assert_eq!(open(policy(5)).maintenance_policy(), policy(5));
}

#[test]
fn a_block_write_pends_until_it_is_durable() {
    let (mut store, device) = store_with_device();
    let first = store
        .write_device(device, 0, &vec![1; BLOCK], WriteDurability::Acknowledged)
        .unwrap()
        .commit_seq;
    assert!(matches!(store.due, PersistDue::Prestage(seq) if seq == first));
    assert_eq!(store.pending_block_deltas.len(), 1);
    store.prestaged(first, None);
    assert_eq!(store.pending_block_deltas.len(), 1);
    let second = store
        .write_device(device, 0, &vec![2; BLOCK], WriteDurability::Flushed)
        .unwrap()
        .commit_seq;
    assert!(second > first);
    assert!(matches!(store.due, PersistDue::BlockDeltas(seq) if seq == second));
    let nothing = IdMap::new();
    let failed = store.persisted(second, Err(StorageError::unavailable("disk is full")), &nothing);
    assert!(matches!(failed, Err(StorageError::Unavailable { .. })));
    assert_eq!(store.pending_block_deltas.len(), 2);
    assert!(matches!(
        store.persisted(second, Ok(first), &nothing),
        Err(StorageError::Conflict { .. })
    ));
    assert_eq!(store.pending_block_deltas.len(), 1);
    assert_eq!(store.pending_block_deltas[0].commit_seq, second);
    store.persisted(second, Ok(second), &nothing).unwrap();
    assert_eq!(store.pending_block_deltas.len(), 0);
    assert_eq!(store.maintenance_policy(), policy(1 << 20));
}

#[test]
fn a_batch_counts_what_it_covers_once() {
    let (mut store, device) = store_with_device();
    let commit = store
        .commit_block_batch(
            device,
            &[batch(0, 1, BLOCK), batch(0, 2, BLOCK), batch(4 * BLOCK, 3, BLOCK)],
            WriteDurability::Acknowledged,
        )
        .unwrap();
    assert_eq!(commit.write_count, 3);
    assert_eq!(commit.collapsed_range_count, 2);
    assert_eq!(commit.committed_bytes, 2 * BLOCK as u64);
    let mut buf = vec![0; BLOCK];
    store.read_device(device, ByteRange { offset: 0, len: BLOCK as u64 }, &mut buf).unwrap();
    assert_eq!(buf, vec![2; BLOCK]);
}

#[test]
fn a_refused_or_empty_write_leaves_nothing_due() {
    let (mut store, device) = store_with_device();
    assert!(matches!(
        store.write_device(DeviceId::from_raw(99), 0, &[1], WriteDurability::Flushed),
        Err(StorageError::NotFound { .. })
    ));
    assert!(matches!(store.due, PersistDue::Nothing));
    store.due = PersistDue::Everything;
    let before = store.device_info(device).unwrap().latest_commit;
    let commit = store.write_device(device, 0, &[], WriteDurability::Flushed).unwrap();
    assert_eq!(commit.commit_seq, before);
    assert!(matches!(store.due, PersistDue::Nothing));
}

#[test]
fn an_unread_buffer_is_left_alone() {
    let (store, device) = store_with_device();
    let mut buf = vec![9; 4];
    let beyond = ByteRange { offset: 8 * BLOCK as u64, len: 4 };
    assert!(matches!(
        store.read_device(device, beyond, &mut buf),
        Err(StorageError::InvalidArgument { .. })
    ));
    assert_eq!(buf, vec![9; 4]);
    assert!(matches!(
        store.read_device(device, ByteRange { offset: 0, len: 3 }, &mut buf),
        Err(StorageError::InvalidArgument { .. })
    ));
    assert_eq!(buf, vec![9; 4]);
}

#[test]
fn a_write_that_is_not_let_in_is_counted() {
    let mut store = open(MaintenancePolicy { write_backpressure_enabled: true, ..policy(1 << 20) });
    let plan = MaintenanceTickPlan {
        unavailable: Some("logs are full"),
        compactions: vec![],
        selected_logs: 0,
        skipped_logs: 0,
        next_cursor: None,
    };
    let step = store.admit_write(Some(&plan));
    assert!(matches!(
        step,
        AdmissionStep::Refuse(StorageError::Unavailable { message: "logs are full" })
    ));
    assert_eq!(store.local.observability.counters.coordinator_write_unavailable, 1);
    assert_eq!(store.local.observability.counters.coordinator_write_attempts, 1);
    assert_eq!(store.drain_events(4).len(), 1);
}

#[test]
fn a_stream_is_durable_before_it_is_published() {
    let mut store = open(policy(1 << 20));
    let keyspace = store.create_keyspace().unwrap();
    let file = store.create_file(keyspace, None).unwrap();
    let stream = store.open_append_stream(keyspace, file).unwrap();
    store.append_stream(&stream, b"hello", WriteDurability::Acknowledged).unwrap();
    let ticket = match store.publish_append_stream(&stream, 5).unwrap() {
        PublishProgress::PrefixDue(ticket) => ticket,
        PublishProgress::Published(_) => panic!("published before the stream was durable"),
    };
    assert!(matches!(store.due, PersistDue::StreamPrefix { through: 5, .. }));
    assert_eq!(store.local.file_info(keyspace, file).unwrap().size, 0);
    assert!(matches!(
        store.wait_append_publish(&ticket),
        Ok(PublishProgress::PrefixDue(again)) if again == ticket
    ));
    store.append_stream_persisted(&stream, 5).unwrap();
    let commit = match store.wait_append_publish(&ticket).unwrap() {
        PublishProgress::Published(commit) => commit,
        PublishProgress::PrefixDue(_) => panic!("the stream is durable"),
    };
    assert_eq!(commit.durability, WriteDurability::Flushed);
    assert_eq!(commit.range, ByteRange { offset: 0, len: 5 });
    assert!(matches!(store.due, PersistDue::Commits(seq) if seq == commit.commit_seq));
    assert!(matches!(
        store.wait_append_publish(&ticket),
        Ok(PublishProgress::Published(again)) if again == commit
    ));
    assert!(matches!(store.due, PersistDue::Nothing));
}

#[test]
fn pending_deltas_are_folded_before_collection() {
    let (mut store, device) = store_with_device();
    let last = store
        .write_device(device, 0, &vec![1; BLOCK], WriteDurability::Acknowledged)
        .unwrap()
        .commit_seq;
    let keep = || RetentionPolicy { keep_history_from: CommitSeq::from_raw(last.raw() + 1) };
    assert!(matches!(store.run_metadata_custodian(keep(), false), Ok(None)));
    assert!(matches!(store.due, PersistDue::Everything));
    assert_eq!(store.local.observability.counters.metadata_custodian_runs, 0);
    store.persisted(last, Ok(last), &IdMap::new()).unwrap();
    assert!(matches!(store.run_metadata_custodian(keep(), true), Ok(None)));
    let report = store.run_metadata_custodian(keep(), false).unwrap().unwrap();
    assert!(report.sweep.released_segments.is_empty());
    assert_eq!(store.local.observability.counters.metadata_custodian_runs, 1);
}

#[test]
fn a_file_batch_leaves_one_profile() {
    let mut store = open(policy(1 << 20));
    let keyspace = store.create_keyspace().unwrap();
    let file = store.create_file(keyspace, None).unwrap();
    store.local.enable_native_file_batch_profiling(4).unwrap();
    let writes = [
        FileBatchWrite { offset: 0, bytes: b"abcd".to_vec() },
        FileBatchWrite { offset: 2, bytes: b"XY".to_vec() },
        FileBatchWrite { offset: 10, bytes: b"z".to_vec() },
    ];
    store.commit_file_batch(keyspace, file, &writes, WriteDurability::Flushed).unwrap();
    let profiles = store.local.drain_native_file_batch_commit_profiles(4);
    assert_eq!(profiles.len(), 1);
    assert_eq!(profiles[0].write_count, 3);
    assert_eq!(profiles[0].requested_bytes, 7);
    assert_eq!(profiles[0].committed_bytes, 5);
    assert_eq!(profiles[0].collapsed_range_count, 2);
    assert_eq!(profiles[0].committed_range_bytes, 11);
    assert_eq!(profiles[0].segment_group_count, 1);
    assert_eq!(profiles[0].segment_count, 1);
    store.commit_file_batch(keyspace, file, &[], WriteDurability::Flushed).unwrap();
    assert_eq!(store.local.drain_native_file_batch_commit_profiles(4).len(), 1);
}

#[test]
fn streams_of_another_incarnation_have_other_numbers() {
    let mut store = open(policy(1 << 20));
    store.use_append_stream_incarnation(3);
    let keyspace = store.create_keyspace().unwrap();
    let file = store.create_file(keyspace, None).unwrap();
    let stream = store.open_append_stream(keyspace, file).unwrap();
    assert_eq!(stream.stream_id.raw(), 3u128 << 64);
}
