use toy_cow::block_api::{
    BlockRequest, ByteRange, DeviceSpec, PayloadIntegrity, WriteDurability,
};
use toy_cow::block_client::LocalBlockClient;
use toy_cow::checksum::data_log_checksum;
use toy_cow::codec::{decode_row, encode_row};
use toy_cow::config::LocalStoreConfig;
use toy_cow::data_log::DurableDataLogRef;
use toy_cow::durable::{DurableCoordinator, PersistDue};
use toy_cow::error::StorageError;
use toy_cow::id::{
    CommitGroupId, CommitSeq, DeviceGeneration, DeviceId, FileId, KeyspaceId, LogicalTime,
    MetadataNodeId, ShardId, StorageNodeId, WriterEpoch,
};
use toy_cow::idmap::IdMap;
use toy_cow::journal_lane::{BlockJournalFlushState, BlockJournalLaneRequest};
use toy_cow::journal_records::{BlockJournalCommit, BlockJournalEntry, BlockJournalRecord};
use toy_cow::journal_replay::{journal_steps, load_block_journal_overlay};
use toy_cow::maintenance::{
    admit_write, compactable_logs, AdmissionStep, DurableDataLogPolicy, MaintenanceMode,
    MaintenancePolicy, MaintenanceTickPlan, WriteAdmission,
};
use toy_cow::metadata_records::{DeviceHead, ShardCommit};
use toy_cow::persist_rows::{
    block_delta_row_key, device_shard_row_key, device_shard_rows, is_node_catalog_table,
    native_file_delta_row_key, DurableTimelineRow,
};
use toy_cow::persist_state::{PersistState, PersistStep, WaitOutcome};

const BLOCK: usize = 4096;

fn policy() -> MaintenancePolicy {
    MaintenancePolicy::manual(DurableDataLogPolicy {
        max_log_bytes: 1 << 20,
        max_compaction_copy_bytes: 1 << 16,
    })
}

fn plan() -> MaintenanceTickPlan {
    MaintenanceTickPlan {
        unavailable: None,
        compactions: vec![],
        selected_logs: 0,
        skipped_logs: 0,
        next_cursor: None,
    }
}

fn log(log_id: u64) -> DurableDataLogRef {
    DurableDataLogRef { storage_node: StorageNodeId::from_raw(1), log_id }
}

fn write_of(device: DeviceId, seq: u64, offset: usize, value: u8) -> BlockJournalRecord {
    BlockJournalRecord::Write(commit_of(device, seq, offset, value))
}

fn commit_of(device: DeviceId, seq: u64, offset: usize, value: u8) -> BlockJournalCommit {
    BlockJournalCommit {
        device_id: device,
        writer_epoch: WriterEpoch::from_raw(1),
        commit_seq: CommitSeq::from_raw(seq),
        write_count: 1,
        collapsed_range_count: 1,
        committed_bytes: BLOCK as u64,
        entries: vec![BlockJournalEntry::Write {
            range: ByteRange { offset: offset as u64, len: BLOCK as u64 },
            payload_integrity: PayloadIntegrity::Verified,
            bytes: vec![value; BLOCK],
        }],
    }
}

#[test]
fn checksum_of_the_standard_text() {
    assert_eq!(data_log_checksum(b"123456789"), 0xE306_9283);
    assert_eq!(data_log_checksum(b""), 0);
}

#[test]
fn rows_round_trip_and_reject_what_follows() {
    let head = DeviceHead {
        device_id: DeviceId::from_raw(5),
        generation: DeviceGeneration::from_raw(2),
        shard_roots: vec![MetadataNodeId::from_raw(8), MetadataNodeId::from_raw(9)],
        latest_commit: CommitSeq::from_raw(3),
    };
    let mut bytes = encode_row(&head).unwrap();
    let decoded = decode_row::<DeviceHead>(&bytes).unwrap();
    assert_eq!(decoded.shard_roots, head.shard_roots);
    assert_eq!(decoded.latest_commit, head.latest_commit);
    bytes.push(0);
    assert!(matches!(decode_row::<DeviceHead>(&bytes), Err(StorageError::Corrupt { .. })));
}

#[test]
fn texts_round_trip_and_must_be_text() {
    let bytes = encode_row(&String::from("h\u{e9}llo")).unwrap();
    assert_eq!(decode_row::<String>(&bytes).unwrap(), "h\u{e9}llo");
    let mut broken = bytes.clone();
    let last = broken.len() - 1;
    broken[last] = 0xFF;
    assert!(matches!(decode_row::<String>(&broken), Err(StorageError::Corrupt { .. })));
}

#[test]
fn row_keys_are_padded() {
    assert_eq!(
        block_delta_row_key(CommitSeq::from_raw(7), DeviceId::from_raw(3)),
        "00000000000000000007:3"
    );
    assert_eq!(
        native_file_delta_row_key(
            CommitSeq::from_raw(u64::MAX),
            KeyspaceId::from_raw(12),
            FileId::from_raw(34),
        ),
        "18446744073709551615:12:34"
    );
    assert_eq!(
        device_shard_row_key(DeviceId::from_raw(3), ShardId::from_raw(11)),
        "3:00000000000000000011"
    );
    assert!(is_node_catalog_table("data_logs"));
    assert!(!is_node_catalog_table("devices"));
}

#[test]
fn shard_rows_know_their_last_commit() {
    let device = DeviceId::from_raw(4);
    let commit = |seq: u64, shard: u32| ShardCommit {
        commit_seq: CommitSeq::from_raw(seq),
        commit_group: CommitGroupId::from_raw(1),
        time: LogicalTime::from_raw(seq),
        device_id: device,
        shard_id: ShardId::from_raw(shard),
        old_root: MetadataNodeId::from_raw(1),
        new_root: MetadataNodeId::from_raw(2),
    };
    let head = DeviceHead {
        device_id: device,
        generation: DeviceGeneration::from_raw(1),
        shard_roots: vec![MetadataNodeId::from_raw(10), MetadataNodeId::from_raw(11)],
        latest_commit: CommitSeq::from_raw(9),
    };
    let rows = device_shard_rows(&head, &vec![commit(5, 1), commit(9, 1)]).unwrap();
    assert_eq!(rows[0].latest_commit, CommitSeq::from_raw(0));
    assert_eq!(rows[1].latest_commit, CommitSeq::from_raw(9));
    assert_eq!(rows[1].root, MetadataNodeId::from_raw(11));
    let forked = device_shard_rows(&head, &vec![]).unwrap();
    assert_eq!(forked[0].latest_commit, CommitSeq::from_raw(9));
    assert_eq!(commit(5, 1).row_key(), "00000000000000000005:4:1");
}

#[test]
fn persisting_is_run_once_and_waited_for() {
    let mut state = PersistState::new(CommitSeq::from_raw(3));
    assert!(matches!(state.step(CommitSeq::from_raw(3)), PersistStep::Reached));
    let PersistStep::Run { target } = state.step(CommitSeq::from_raw(5)) else {
        panic!("nothing runs yet");
    };
    assert_eq!(target, CommitSeq::from_raw(5));
    let PersistStep::Wait { generation } = state.step(CommitSeq::from_raw(6)) else {
        panic!("one run is under way");
    };
    assert!(state.finish(CommitSeq::from_raw(5), Ok(target)).is_ok());
    assert!(matches!(
        state.after_wait(CommitSeq::from_raw(5), generation),
        WaitOutcome::Reached
    ));
    assert!(matches!(
        state.after_wait(CommitSeq::from_raw(6), generation),
        WaitOutcome::Again
    ));
    assert!(matches!(state.step(CommitSeq::from_raw(6)), PersistStep::Run { .. }));
    let fault = StorageError::unavailable("disk is gone");
    assert!(matches!(
        state.finish(CommitSeq::from_raw(6), Err(fault)),
        Err(StorageError::Unavailable { .. })
    ));
    assert!(matches!(
        state.after_wait(CommitSeq::from_raw(6), generation),
        WaitOutcome::Failed(StorageError::Unavailable { .. })
    ));
}

#[test]
fn writes_are_let_in_by_policy() {
    let quiet = plan();
    assert!(matches!(
        admit_write(policy(), Some(&quiet)),
        AdmissionStep::Admit(WriteAdmission::Accept)
    ));
    let mut busy = plan();
    busy.compactions = vec![vec![log(1)]];
    assert!(matches!(
        admit_write(policy(), Some(&busy)),
        AdmissionStep::Admit(WriteAdmission::AcceptAndSchedule)
    ));
    let opportunistic = MaintenancePolicy { mode: MaintenanceMode::Opportunistic, ..policy() };
    assert!(matches!(admit_write(opportunistic, Some(&busy)), AdmissionStep::TickFirst));
    busy.unavailable = Some("too many dead bytes");
    let strict = MaintenancePolicy { write_backpressure_enabled: true, ..policy() };
    assert!(matches!(
        admit_write(strict, Some(&busy)),
        AdmissionStep::Refuse(StorageError::Unavailable { .. })
    ));
}

#[test]
fn pending_logs_are_not_compacted() {
    let kept = compactable_logs(&vec![log(1), log(2), log(3)], &vec![log(2)]);
    assert_eq!(kept, vec![log(1), log(3)]);
}

#[test]
fn replay_keeps_flushed_writes_only() {
    let device = DeviceId::from_raw(6);
    let records = vec![
        BlockJournalRecord::Lease { device_id: device, writer_epoch: WriterEpoch::from_raw(1) },
        write_of(device, 1, 0, 1),
        write_of(device, 2, 0, 2),
        BlockJournalRecord::Flush {
            device_id: device,
            writer_epoch: WriterEpoch::from_raw(1),
            durable_through: CommitSeq::from_raw(2),
        },
        write_of(device, 3, BLOCK, 3),
    ];
    let steps = journal_steps(records).unwrap();
    let mut specs: IdMap<DeviceSpec> = IdMap::new();
    specs.insert(device.raw(), DeviceSpec { logical_blocks: 8, block_size: BLOCK as u32 });
    let overlay = load_block_journal_overlay(&steps, &specs, &IdMap::new()).unwrap();
    assert_eq!(overlay.writer_epoch(device), WriterEpoch::from_raw(1));
    assert_eq!(overlay.durable_through(device), CommitSeq::from_raw(2));
    assert_eq!(overlay.lba_run_count(device), 1);
}

#[test]
fn replay_refuses_writes_out_of_order() {
    let device = DeviceId::from_raw(6);
    let records = vec![write_of(device, 2, 0, 1), write_of(device, 1, 0, 2)];
    let steps = journal_steps(records).unwrap();
    let mut specs: IdMap<DeviceSpec> = IdMap::new();
    specs.insert(device.raw(), DeviceSpec { logical_blocks: 8, block_size: BLOCK as u32 });
    assert!(load_block_journal_overlay(&steps, &specs, &IdMap::new()).is_err());
}

#[test]
fn the_lane_counts_unapplied_writes() {
    let device = DeviceId::from_raw(6);
    let mut lane = BlockJournalFlushState::new();
    assert!(!lane.has_unapplied_writes(device));
    lane.enqueue(BlockJournalLaneRequest::Write(commit_of(device, 1, 0, 1)));
    lane.enqueue(BlockJournalLaneRequest::Write(commit_of(device, 2, 0, 1)));
    lane.release_unapplied_writes(device, 1);
    assert!(lane.has_unapplied_writes(device));
    lane.release_unapplied_writes(device, 1);
    assert!(!lane.has_unapplied_writes(device));
}

#[test]
fn a_durable_write_is_owed_to_the_disk() {
    let mut store = DurableCoordinator::open_with_maintenance_policy(
        None,
        LocalStoreConfig::default(),
        policy(),
        None,
    )
    .unwrap();
    let device = store.local.create_device(DeviceSpec {
        logical_blocks: 8,
        block_size: BLOCK as u32,
    });
    let device = device.unwrap();
    let commit = store
        .write_device(device, 0, &vec![7; BLOCK], WriteDurability::Flushed)
        .unwrap();
    assert!(matches!(
        store.due,
        PersistDue::Commits(_) | PersistDue::BlockDeltas(_) | PersistDue::Everything
    ));
    let mut buf = vec![0; BLOCK];
    store
        .local
        .read_device(device, ByteRange { offset: 0, len: BLOCK as u64 }, &mut buf)
        .unwrap();
    assert_eq!(buf, vec![7; BLOCK]);
    assert_eq!(store.local.device_info(device).unwrap().latest_commit, commit.commit_seq);
}

#[test]
fn clients_number_their_requests() {
    let mut client = LocalBlockClient::new();
    let first = client.device_info(DeviceId::from_raw(1)).unwrap();
    let second = client.device_info(DeviceId::from_raw(1)).unwrap();
    assert_eq!(second.request_id.raw(), first.request_id.raw() + 1);
    assert!(matches!(first.request, BlockRequest::Info { .. }));
}
