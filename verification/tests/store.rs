use toy_cow::block_api::{
    BlockBatchWrite, ByteRange, DeviceSpec, ForkRequest, PayloadIntegrity, ReadVerification,
    RestorePoint, WriteDurability,
};
use toy_cow::config::LocalStoreConfig;
use toy_cow::coordinator::LocalCoordinator;
use toy_cow::error::StorageError;
use toy_cow::gc::RetentionPolicy;
use toy_cow::id::{CommitSeq, DeviceId, FileId, KeyspaceId, StorageNodeId};
use toy_cow::native_api::FileBatchWrite;

const BLOCK: usize = 4096;

fn spec(logical_blocks: u64) -> DeviceSpec {
    DeviceSpec { logical_blocks, block_size: BLOCK as u32 }
}

fn range(offset: usize, len: usize) -> ByteRange {
    ByteRange { offset: offset as u64, len: len as u64 }
}

fn store_with_device(blocks: u64) -> (LocalCoordinator, DeviceId) {
    let mut store = LocalCoordinator::new();
    let device = store.create_device(spec(blocks)).unwrap();
    (store, device)
}

fn read(store: &LocalCoordinator, device: DeviceId, offset: usize, len: usize) -> Vec<u8> {
    let mut buf = vec![0xEE; len];
    store.read_device(device, range(offset, len), &mut buf).unwrap();
    buf
}

fn write(store: &mut LocalCoordinator, device: DeviceId, offset: usize, value: u8, len: usize) -> CommitSeq {
    store
        .write_device(device, offset as u64, &vec![value; len], WriteDurability::Acknowledged)
        .unwrap()
        .commit_seq
}

fn file_write(offset: u64, bytes: &[u8]) -> FileBatchWrite {
    FileBatchWrite { offset, bytes: bytes.to_vec() }
}

fn read_file(store: &LocalCoordinator, k: KeyspaceId, f: FileId, offset: usize, len: usize) -> Vec<u8> {
    let mut buf = vec![0xEE; len];
    store.read_file(k, f, range(offset, len), &mut buf).unwrap();
    buf
}

#[test]
fn new_device_reads_as_zeros() {
    let (store, device) = store_with_device(16);
    assert_eq!(read(&store, device, 0, BLOCK * 16), vec![0; BLOCK * 16]);
    let info = store.device_info(device).unwrap();
    assert_eq!(info.spec, spec(16));
}

#[test]
fn read_gives_back_write() {
    let (mut store, device) = store_with_device(32);
    let data: Vec<u8> = (0..BLOCK * 3).map(|i| (i % 251) as u8).collect();
    let commit = store
        .write_device(device, (BLOCK * 5) as u64, &data, WriteDurability::Acknowledged)
        .unwrap();
    assert_eq!(commit.range, range(BLOCK * 5, BLOCK * 3));
    assert_eq!(store.device_info(device).unwrap().latest_commit, commit.commit_seq);
    assert_eq!(read(&store, device, BLOCK * 5, BLOCK * 3), data);
    assert_eq!(read(&store, device, BLOCK * 4, BLOCK), vec![0; BLOCK]);
    assert_eq!(read(&store, device, BLOCK * 8, BLOCK), vec![0; BLOCK]);
}

#[test]
fn verified_read_gives_back_checked_write() {
    let (mut store, device) = store_with_device(4);
    write(&mut store, device, 0, 3, BLOCK);
    let mut buf = vec![0; BLOCK];
    store
        .read_device_with_verification(
            device,
            range(0, BLOCK),
            &mut buf,
            ReadVerification::RequireVerified,
        )
        .unwrap();
    assert_eq!(buf, vec![3; BLOCK]);
}

#[test]
fn last_write_of_a_batch_wins() {
    let (mut store, device) = store_with_device(8);
    let batch = vec![
        BlockBatchWrite {
            offset: 0,
            bytes: vec![1; BLOCK * 4],
            payload_integrity: PayloadIntegrity::Verified,
        },
        BlockBatchWrite {
            offset: BLOCK as u64,
            bytes: vec![2; BLOCK],
            payload_integrity: PayloadIntegrity::Verified,
        },
    ];
    let commit = store.commit_block_batch(device, &batch, WriteDurability::Acknowledged).unwrap();
    assert_eq!(commit.write_count, 2);
    assert_eq!(read(&store, device, 0, BLOCK), vec![1; BLOCK]);
    assert_eq!(read(&store, device, BLOCK, BLOCK), vec![2; BLOCK]);
    assert_eq!(read(&store, device, BLOCK * 2, BLOCK * 2), vec![1; BLOCK * 2]);
}

#[test]
fn device_requests_name_their_faults() {
    let (mut store, device) = store_with_device(4);
    let absent = DeviceId::from_raw(999);
    let mut buf = vec![0; BLOCK];
    assert!(matches!(
        store.read_device(absent, range(0, BLOCK), &mut buf),
        Err(StorageError::NotFound { .. })
    ));
    assert!(matches!(
        store.read_device(device, range(1, BLOCK), &mut buf),
        Err(StorageError::InvalidArgument { .. })
    ));
    assert!(matches!(
        store.read_device(device, range(BLOCK * 4, BLOCK), &mut buf),
        Err(StorageError::InvalidArgument { .. })
    ));
    assert!(matches!(
        store.write_device(device, 7, &buf, WriteDurability::Acknowledged),
        Err(StorageError::InvalidArgument { .. })
    ));
    assert!(matches!(
        store.write_device(absent, 0, &buf, WriteDurability::Acknowledged),
        Err(StorageError::NotFound { .. })
    ));
    assert!(matches!(
        store.create_device(DeviceSpec { logical_blocks: 4, block_size: 512 }),
        Err(StorageError::InvalidArgument { .. })
    ));
    assert!(matches!(
        store.create_device(spec(0)),
        Err(StorageError::InvalidArgument { .. })
    ));
}

#[test]
fn fork_keeps_what_it_forked() {
    let (mut store, device) = store_with_device(8);
    write(&mut store, device, 0, 1, BLOCK * 2);
    let fork = store.fork_device(device, &ForkRequest { target: None, name: None }).unwrap();
    write(&mut store, device, 0, 2, BLOCK);
    write(&mut store, fork, BLOCK, 3, BLOCK);
    assert_eq!(read(&store, fork, 0, BLOCK), vec![1; BLOCK]);
    assert_eq!(read(&store, fork, BLOCK, BLOCK), vec![3; BLOCK]);
    assert_eq!(read(&store, device, 0, BLOCK), vec![2; BLOCK]);
    assert_eq!(read(&store, device, BLOCK, BLOCK), vec![1; BLOCK]);
}

#[test]
fn restore_brings_back_a_commit() {
    let (mut store, device) = store_with_device(8);
    let first = write(&mut store, device, 0, 1, BLOCK * 2);
    write(&mut store, device, BLOCK, 2, BLOCK);
    let old = store.restore_device(device, RestorePoint::Commit(first)).unwrap();
    assert_eq!(read(&store, old, 0, BLOCK * 2), vec![1; BLOCK * 2]);
    assert_eq!(read(&store, device, BLOCK, BLOCK), vec![2; BLOCK]);
    assert!(matches!(
        store.restore_device(DeviceId::from_raw(999), RestorePoint::Commit(first)),
        Err(StorageError::NotFound { .. })
    ));
}

#[test]
fn checkpoint_outlives_later_writes_and_deletion() {
    let (mut store, device) = store_with_device(8);
    write(&mut store, device, 0, 1, BLOCK);
    let checkpoint = store.checkpoint(device).unwrap();
    write(&mut store, device, 0, 2, BLOCK);
    store.delete_device(device).unwrap();
    assert!(matches!(store.device_info(device), Err(StorageError::NotFound { .. })));
    let old = store.restore_device(device, RestorePoint::Checkpoint(checkpoint)).unwrap();
    assert_eq!(read(&store, old, 0, BLOCK), vec![1; BLOCK]);
}

#[test]
fn a_new_lease_fences_the_old_one() {
    let (mut store, device) = store_with_device(8);
    let first = store.acquire_block_writer(device).unwrap();
    let second = store.acquire_block_writer(device).unwrap();
    assert_eq!(second.writer_epoch.raw(), first.writer_epoch.raw() + 1);
    assert!(matches!(
        store.write_device_with_writer(
            &first,
            0,
            &vec![1; BLOCK],
            WriteDurability::Acknowledged,
            PayloadIntegrity::Verified,
        ),
        Err(StorageError::Conflict { .. })
    ));
    store
        .write_device_with_writer(
            &second,
            0,
            &vec![2; BLOCK],
            WriteDurability::Acknowledged,
            PayloadIntegrity::Verified,
        )
        .unwrap();
    assert_eq!(read(&store, device, 0, BLOCK), vec![2; BLOCK]);
}

#[test]
fn file_read_gives_back_writes_and_zeros_between() {
    let mut store = LocalCoordinator::new();
    let keyspace = store.create_keyspace().unwrap();
    let file = store.create_file(keyspace, None).unwrap();
    store
        .commit_file_batch(
            keyspace,
            file,
            &[file_write(3, b"abc"), file_write(10, b"xyz"), file_write(4, b"B")],
            WriteDurability::Acknowledged,
        )
        .unwrap();
    assert_eq!(store.file_info(keyspace, file).unwrap().size, 13);
    assert_eq!(read_file(&store, keyspace, file, 0, 13), b"\0\0\0aBc\0\0\0\0xyz".to_vec());
    let mut buf = vec![0; 2];
    assert!(matches!(
        store.read_file(keyspace, file, range(12, 2), &mut buf),
        Err(StorageError::InvalidArgument { .. })
    ));
    assert!(matches!(
        store.read_file(keyspace, FileId::from_raw(77), range(0, 2), &mut buf),
        Err(StorageError::NotFound { .. })
    ));
}

#[test]
fn appended_bytes_show_once_published() {
    let mut store = LocalCoordinator::new();
    let keyspace = store.create_keyspace().unwrap();
    let file = store.create_file(keyspace, None).unwrap();
    let stream = store.open_append_stream(keyspace, file).unwrap();
    let first = store.append_stream(&stream, b"hello ", WriteDurability::Acknowledged).unwrap();
    let second = store.append_stream(&stream, b"world", WriteDurability::Acknowledged).unwrap();
    assert_eq!(first.range, range(0, 6));
    assert_eq!(second.range, range(6, 5));
    assert_eq!(store.file_info(keyspace, file).unwrap().size, 0);
    let commit = store.publish_append_stream(&stream, 8, WriteDurability::Acknowledged).unwrap();
    assert_eq!(commit.range, range(0, 8));
    assert_eq!(read_file(&store, keyspace, file, 0, 8), b"hello wo".to_vec());
    store.publish_append_stream(&stream, 11, WriteDurability::Acknowledged).unwrap();
    assert_eq!(read_file(&store, keyspace, file, 0, 11), b"hello world".to_vec());
}

#[test]
fn a_second_stream_fences_the_first() {
    let mut store = LocalCoordinator::new();
    let keyspace = store.create_keyspace().unwrap();
    let file = store.create_file(keyspace, None).unwrap();
    let first = store.open_append_stream(keyspace, file).unwrap();
    let second = store.open_append_stream(keyspace, file).unwrap();
    assert!(matches!(
        store.append_stream(&first, b"a", WriteDurability::Acknowledged),
        Err(StorageError::Conflict { .. })
    ));
    assert!(matches!(
        store.append_stream(&second, b"", WriteDurability::Acknowledged),
        Err(StorageError::InvalidArgument { .. })
    ));
    store.append_stream(&second, b"b", WriteDurability::Acknowledged).unwrap();
}

#[test]
fn restored_keyspace_holds_the_old_file() {
    let mut store = LocalCoordinator::new();
    let keyspace = store.create_keyspace().unwrap();
    let file = store.create_file(keyspace, None).unwrap();
    let old = store
        .commit_file_batch(keyspace, file, &[file_write(0, b"old")], WriteDurability::Acknowledged)
        .unwrap();
    store
        .commit_file_batch(keyspace, file, &[file_write(0, b"new")], WriteDurability::Acknowledged)
        .unwrap();
    let restored = store.restore_keyspace(keyspace, RestorePoint::Commit(old.commit_seq)).unwrap();
    assert_eq!(read_file(&store, restored, file, 0, 3), b"old".to_vec());
    assert_eq!(read_file(&store, keyspace, file, 0, 3), b"new".to_vec());
}

#[test]
fn sweeping_keeps_what_is_read_and_frees_the_rest() {
    let (mut store, device) = store_with_device(8);
    let first = write(&mut store, device, 0, 1, BLOCK);
    let last = write(&mut store, device, 0, 2, BLOCK);
    let report = store
        .run_metadata_custodian(RetentionPolicy {
            keep_history_from: CommitSeq::from_raw(last.raw() + 1),
        })
        .unwrap();
    assert_eq!(report.catalog_released_segments.len(), 1);
    assert_eq!(read(&store, device, 0, BLOCK), vec![2; BLOCK]);
    let disposal = store.run_storage_node_custodian(&vec![]);
    assert_eq!(disposal.deleted_released_segments.len(), 1);
    assert_eq!(read(&store, device, 0, BLOCK), vec![2; BLOCK]);
    assert!(matches!(
        store.restore_device(device, RestorePoint::Commit(first)),
        Err(StorageError::NotFound { .. })
    ));
}

#[test]
fn metadata_tree_is_sound_and_shown() {
    let (mut store, device) = store_with_device(8);
    write(&mut store, device, 0, 1, BLOCK);
    let root = store.metadata().device_heads.get(device.raw()).unwrap().shard_roots[0];
    let stats = store.validate_metadata_tree(root).unwrap();
    let ids = store.metadata_tree_node_ids(root).unwrap();
    assert!(ids.contains(&root));
    assert!(stats.leaves >= 1);
    assert!(!store.render_metadata_tree(root).unwrap().is_empty());
}

#[test]
fn config_is_checked() {
    let config = LocalStoreConfig::default();
    assert!(config.validate().is_ok());
    assert!(matches!(
        LocalStoreConfig { shard_count: 0, ..config }.validate(),
        Err(StorageError::InvalidArgument { .. })
    ));
    assert!(matches!(
        LocalStoreConfig { block_size: 1000, ..config }.validate(),
        Err(StorageError::InvalidArgument { .. })
    ));
    assert!(LocalCoordinator::with_storage_nodes(
        config,
        vec![StorageNodeId::from_raw(1), StorageNodeId::from_raw(2)],
    )
    .is_ok());
}

#[test]
fn a_repeated_discard_repeats_its_answer() {
    let (mut store, device) = store_with_device(8);
    let fresh = store.device_info(device).unwrap().latest_commit;
    let untouched = store.discard_device(device, 0, BLOCK as u64).unwrap();
    assert_eq!(untouched.commit_seq, fresh);
    let written = write(&mut store, device, 0, 7, BLOCK);
    let first = store.discard_device(device, 0, BLOCK as u64).unwrap();
    assert!(first.commit_seq > written);
    let again = store.discard_device(device, 0, BLOCK as u64).unwrap();
    assert_eq!(again, first);
    assert_eq!(store.write_zeroes(device, 0, BLOCK as u64).unwrap(), first);
    assert_eq!(read(&store, device, 0, BLOCK), vec![0; BLOCK]);
}

#[test]
fn a_lease_that_was_not_issued_is_refused() {
    let (mut store, device) = store_with_device(8);
    let mut lease = store.acquire_block_writer(device).unwrap();
    lease.writer_epoch = toy_cow::id::WriterEpoch::from_raw(0);
    assert!(matches!(
        store.discard_device_with_writer(&lease, 0, BLOCK as u64),
        Err(StorageError::Conflict { .. })
    ));
    assert!(matches!(
        store.write_device_with_writer(
            &lease,
            0,
            &vec![1; BLOCK],
            WriteDurability::Acknowledged,
            PayloadIntegrity::Verified,
        ),
        Err(StorageError::Conflict { .. })
    ));
    assert_eq!(read(&store, device, 0, BLOCK), vec![0; BLOCK]);
}

#[test]
fn custodians_list_what_they_gave_up_in_order() {
    let (mut store, device) = store_with_device(8);
    for block in 0..3 {
        write(&mut store, device, block * BLOCK, 1, BLOCK);
    }
    let mut last = CommitSeq::from_raw(0);
    for block in 0..3 {
        last = write(&mut store, device, (2 - block) * BLOCK, 2, BLOCK);
    }
    let report = store
        .run_metadata_custodian(RetentionPolicy {
            keep_history_from: CommitSeq::from_raw(last.raw() + 1),
        })
        .unwrap();
    let released = &report.sweep.released_segments;
    assert_eq!(released.len(), 3);
    assert!(released.windows(2).all(|pair| pair[0] < pair[1]));
    assert_eq!(&report.catalog_released_segments, released);
    assert_eq!(store.observability.counters.metadata_custodian_runs, 1);
    let given_up = store.run_storage_node_custodian(&vec![]);
    assert_eq!(&given_up.deleted_released_segments, released);
    assert!(given_up.orphan_segments.is_empty());
    assert_eq!(store.observability.counters.storage_node_custodian_runs, 1);
}
