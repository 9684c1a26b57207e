//! The requests to a durable store: each changes the store in memory and
//! says what has to be written down before it is answered.
use vstd::prelude::*;

use crate::batch::file_batch_fits;
use crate::block_api::{
    BlockRange, ByteRange, DeleteResult, DeviceInfo, DeviceSpec, ForkRequest, PayloadIntegrity,
    ReadVerification, RestorePoint, WriteCommit, WriteDurability,
};
use crate::coordinator::{LocalCoordinator, whole_blocks};
use crate::custodian::{Disposal, StorageNodeCustodianReport, disposal_of, lists_given_up};
use crate::diagnostics::{SegmentCatalogView, SegmentStoreView};
use crate::durable::{DurableCoordinator, PersistDue};
use crate::error::StorageError;
use crate::export_state::any_node_names;
use crate::file_commit::{file_batch_beyond, file_batch_places, file_batch_too_large, file_span};
use crate::file_publish::fenced;
use crate::id::{
    BlockCount, BlockIndex, CheckpointId, CommitSeq, DeviceGeneration, DeviceId, FileId,
    FileVersion, KeyspaceGeneration, KeyspaceId, WriteIntentId,
};
use crate::metadata::{AppendPublishTicketRecord, LiveAppendStream, MetadataInner};
use crate::metadata_devices::{holds_nothing, shard_count_of, spec_valid};
use crate::metadata_files::catalog_head;
use crate::metadata_records::{AppendStreamState, AppendStreamStatus, MappingOwner};
use crate::metadata_streams::{file_epoch, token_open};
use crate::native_api::{
    AppendPublishTicket, AppendStream, FileBatchWrite, FileWriteCommit, SnapshotKeyspaceRequest,
};
use crate::observability::{ReadProfile, StorageEvent, StorageEventKind, counted, write_counted};
use crate::segment_records::SegmentLifecycleState;
use crate::storage_nodes::StorageNodeRegistry;
use crate::stored::segments_added;

verus! {

impl DurableCoordinator {
    /// Creates a device; every byte of it is zero.
    pub fn create_device(&mut self, spec: DeviceSpec) -> (result: Result<DeviceId, StorageError>)
        requires
            old(self).wf(),
        ensures
            *final(self) == (DurableCoordinator {
                local: final(self).local,
                due: final(self).due,
                ..*old(self)
            }),
            final(self).due == PersistDue::Everything,
            final(self).wf(),
            final(self).follows(old(self)),
            final(self).local.keeps_store(&old(self).local),
            final(self).local == (LocalCoordinator { metadata: final(self).local.metadata, ..old(self).local }),
            final(self).local.metadata.same_outside_devices(&old(self).local.metadata),
            final(self).local.moved_within(&old(self).local, 0),
            result matches Ok(device_id) ==> {
                &&& spec_valid(spec, old(self).local.config)
                &&& device_id.0 == old(self).local.metadata.next_device_id
                &&& final(self).local.metadata.device_heads@[device_id.0].generation == DeviceGeneration(
                    1,
                )
                &&& final(self).local.metadata.device_heads@[device_id.0].latest_commit == CommitSeq(0)
                &&& final(self).local.metadata.device_heads@.remove(device_id.0) == old(self).local.metadata.device_heads@
                &&& !old(self).local.metadata.has_device(device_id)
                &&& final(self).local.metadata.has_device(device_id)
                &&& final(self).local.metadata.device_specs@[device_id.0] == spec
                &&& final(self).local.other_devices_kept(&old(self).local, device_id)
                &&& final(self).local.metadata.roots_of(device_id).len() == shard_count_of(
                    spec,
                    old(self).local.config,
                )
                &&& final(self).local.metadata.roots_of(device_id).len() == 1 ==> final(self).local.nodes()[final(self).local.metadata.roots_of(device_id)[0].0].covered_range == (
                BlockRange {
                    start: BlockIndex(0),
                    blocks: BlockCount(spec.logical_blocks),
                })
                &&& holds_nothing(
                    final(self).local.nodes(),
                    final(self).local.metadata.roots_of(device_id),
                    spec.logical_blocks as int,
                )
                &&& forall|range: ByteRange|
                    range.fits_device(spec) ==> #[trigger] final(self).local.maps_nothing(
                        device_id,
                        range,
                    )
                &&& forall|byte: int|
                    0 <= byte < final(self).local.device_bytes(device_id) ==> (#[trigger] final(self).local.device_byte(
                        device_id,
                        byte,
                    )) == 0
            },
            result is Ok || !spec_valid(spec, old(self).local.config) || !old(self).local.room_for(0),
            result is Err ==> final(self).local.metadata.device_heads == old(self).local.metadata.device_heads,
            !spec_valid(spec, old(self).local.config) ==> (result matches Err(error)
                && error is InvalidArgument),
    {
        let result = self.local.create_device(spec);
        self.due = PersistDue::Everything;
        result
    }

    /// Creates an empty keyspace.
    pub fn create_keyspace(&mut self) -> (result: Result<KeyspaceId, StorageError>)
        requires
            old(self).wf(),
        ensures
            *final(self) == (DurableCoordinator {
                local: final(self).local,
                due: final(self).due,
                ..*old(self)
            }),
            final(self).due == PersistDue::Everything,
            final(self).wf(),
            final(self).follows(old(self)),
            final(self).local.keeps_store(&old(self).local),
            final(self).local.storage_nodes == old(self).local.storage_nodes,
            final(self).local.metadata.device_heads == old(self).local.metadata.device_heads,
            final(self).local.metadata.device_specs == old(self).local.metadata.device_specs,
            result matches Ok(keyspace_id) ==> {
                &&& !old(self).local.metadata.has_keyspace(keyspace_id)
                &&& final(self).local.metadata.has_keyspace(keyspace_id)
                &&& final(self).local.metadata.keyspace_heads@[keyspace_id.0].file_count == 0
                &&& forall|f: FileId| !(#[trigger] final(self).local.metadata.has_file(keyspace_id, f))
                &&& forall|k: KeyspaceId, f: FileId|
                    old(self).local.metadata.has_keyspace(k) ==> #[trigger] final(self).local.metadata.file_head(k, f) == old(self).local.metadata.file_head(k, f)
            },
            result is Err ==> old(self).local.config.shard_count > u32::MAX || !old(self).local.room_for(0),
            result matches Ok(keyspace_id) ==> keyspace_id.0 == old(self).local.metadata.next_keyspace_id
                && final(self).local.metadata.keyspace_heads@[keyspace_id.0].generation
                == KeyspaceGeneration(1) && final(self).local.metadata.keyspace_heads@.remove(
                keyspace_id.0,
            ) == old(self).local.metadata.keyspace_heads@,
            final(self).local.moved_within(&old(self).local, 0),
            final(self).local == (LocalCoordinator { metadata: final(self).local.metadata, ..old(self).local }),
            final(self).local.metadata.same_outside_files(&old(self).local.metadata),
            final(self).local.metadata.records_kept(&old(self).local.metadata),
            result is Err ==> final(self).local.metadata.keyspace_heads == old(self).local.metadata.keyspace_heads,
    {
        let result = self.local.create_keyspace();
        self.due = PersistDue::Everything;
        result
    }

    /// Creates an empty file.
    pub fn create_file(&mut self, keyspace_id: KeyspaceId, name: Option<String>) -> (result: Result<
        FileId,
        StorageError,
    >)
        requires
            old(self).wf(),
        ensures
            *final(self) == (DurableCoordinator {
                local: final(self).local,
                due: final(self).due,
                ..*old(self)
            }),
            final(self).due == PersistDue::Everything,
            final(self).wf(),
            final(self).follows(old(self)),
            final(self).local.keeps_store(&old(self).local),
            final(self).local.storage_nodes == old(self).local.storage_nodes,
            final(self).local.metadata.device_heads == old(self).local.metadata.device_heads,
            final(self).local.metadata.device_specs == old(self).local.metadata.device_specs,
            final(self).local.metadata.keyspace_heads@.dom() == old(self).local.metadata.keyspace_heads@.dom(),
            result matches Ok(file_id) ==> {
                &&& old(self).local.metadata.has_keyspace(keyspace_id)
                &&& !old(self).local.metadata.has_file(keyspace_id, file_id)
                &&& file_id.0 == old(self).local.metadata.next_file_id
                &&& final(self).local.metadata.has_file(keyspace_id, file_id)
                &&& final(self).local.metadata.file_head(keyspace_id, file_id)->0.version == FileVersion(1)
                &&& final(self).local.file_size(keyspace_id, file_id) == 0
                &&& final(self).local.file_limit(keyspace_id, file_id) == old(self).local.config.file_root_blocks * old(self).local.block_size()
                &&& final(self).local.clean_tail(keyspace_id, file_id)
                &&& final(self).local.metadata.other_files_kept(
                    &old(self).local.metadata,
                    keyspace_id,
                    file_id,
                )
            },
            result is Err ==> !old(self).local.metadata.has_keyspace(keyspace_id) || old(self).local.config.file_root_blocks * old(self).local.block_size() > u64::MAX || !old(self).local.room_for(0) || old(self).local.metadata.keyspace_heads@[keyspace_id.0].generation.0 == u64::MAX || old(self).local.metadata.keyspace_heads@[keyspace_id.0].file_count == usize::MAX,
            !old(self).local.metadata.has_keyspace(keyspace_id) ==> result == Err::<FileId, StorageError>(
                StorageError::NotFound { kind: "keyspace", id: keyspace_id.0 },
            ),
            final(self).local.moved_within(&old(self).local, 0),
            final(self).local == (LocalCoordinator { metadata: final(self).local.metadata, ..old(self).local }),
            final(self).local.metadata.same_outside_files(&old(self).local.metadata),
            final(self).local.metadata.records_kept(&old(self).local.metadata),
            result is Err ==> final(self).local.metadata.keyspace_heads == old(self).local.metadata.keyspace_heads,
            result matches Ok(file_id) ==> final(self).local.metadata.file_creation_recorded(
                &old(self).local.metadata,
                keyspace_id,
                final(self).local.metadata.file_head(keyspace_id, file_id)->0,
            ),
    {
        let result = self.local.create_file(keyspace_id, name);
        self.due = PersistDue::Everything;
        result
    }

    /// Records what a device holds now.
    pub fn checkpoint(&mut self, device_id: DeviceId) -> (result: Result<
        CheckpointId,
        StorageError,
    >)
        requires
            old(self).wf(),
        ensures
            *final(self) == (DurableCoordinator {
                local: final(self).local,
                due: final(self).due,
                ..*old(self)
            }),
            final(self).due == PersistDue::Everything,
            final(self).wf(),
            final(self).follows(old(self)),
            final(self).local.keeps_store(&old(self).local),
            final(self).local.storage_nodes == old(self).local.storage_nodes,
            final(self).local.metadata.device_heads == old(self).local.metadata.device_heads,
            final(self).local.metadata.device_specs == old(self).local.metadata.device_specs,
            result is Ok <==> old(self).local.metadata.has_device(device_id) && old(self).local.metadata.next_commit_seq < u64::MAX && old(self).local.metadata.next_checkpoint_id
                < u128::MAX,
            result matches Ok(id) ==> id.0 == old(self).local.metadata.next_checkpoint_id && final(self).local.metadata.has_point(device_id, RestorePoint::Checkpoint(id)) && final(self).local.metadata.roots_at_point(device_id, RestorePoint::Checkpoint(id)) == old(self).local.metadata.roots_of(device_id),
            !old(self).local.metadata.has_device(device_id) ==> result == Err::<
                CheckpointId,
                StorageError,
            >(StorageError::NotFound { kind: "device", id: device_id.0 }),
            result is Err ==> final(self).local == old(self).local,
            result matches Ok(id) ==> {
                let made = final(self).local.metadata.checkpoints@[id.0];
                &&& final(self).local.metadata.checkpoints@.contains_key(id.0)
                &&& final(self).local.metadata.checkpoints@.remove(id.0) == old(self).local.metadata.checkpoints@.remove(id.0)
                &&& made.checkpoint_id == id
                &&& made.commit_seq.0 == old(self).local.metadata.next_commit_seq
                &&& made.time.0 == old(self).local.metadata.next_commit_seq
                &&& made.owner == MappingOwner::BlockDevice(device_id)
                &&& final(self).local.metadata.next_commit_seq == old(self).local.metadata.next_commit_seq + 1
                &&& final(self).local.metadata.next_checkpoint_id == id.0 + 1
                &&& final(self).local == (LocalCoordinator {
                    metadata: MetadataInner {
                        checkpoints: final(self).local.metadata.checkpoints,
                        next_commit_seq: final(self).local.metadata.next_commit_seq,
                        next_checkpoint_id: final(self).local.metadata.next_checkpoint_id,..old(self).local.metadata
                    },..old(self).local
                })
            },
    {
        let result = self.local.checkpoint(device_id);
        self.due = PersistDue::Everything;
        result
    }

    /// Records what a keyspace holds now.
    pub fn checkpoint_keyspace(&mut self, keyspace_id: KeyspaceId) -> (result: Result<
        CheckpointId,
        StorageError,
    >)
        requires
            old(self).wf(),
        ensures
            *final(self) == (DurableCoordinator {
                local: final(self).local,
                due: final(self).due,
                ..*old(self)
            }),
            final(self).due == PersistDue::Everything,
            final(self).wf(),
            final(self).follows(old(self)),
            final(self).local.keeps_store(&old(self).local),
            final(self).local.storage_nodes == old(self).local.storage_nodes,
            final(self).local.metadata.keyspace_heads == old(self).local.metadata.keyspace_heads,
            final(self).local.metadata.keyspace_catalog_shards == old(self).local.metadata.keyspace_catalog_shards,
            final(self).local.metadata.device_heads == old(self).local.metadata.device_heads,
            final(self).local.metadata.device_specs == old(self).local.metadata.device_specs,
            result is Ok <==> old(self).local.metadata.has_keyspace(keyspace_id) && old(self).local.metadata.next_commit_seq < u64::MAX && old(self).local.metadata.next_checkpoint_id
                < u128::MAX && old(self).local.metadata.next_keyspace_root_id < u128::MAX,
            result matches Ok(id) ==> {
                &&& id.0 == old(self).local.metadata.next_checkpoint_id
                &&& final(self).local.metadata.has_keyspace_point(
                    keyspace_id,
                    RestorePoint::Checkpoint(id),
                )
                &&& final(self).local.metadata.catalog_at_point(keyspace_id, RestorePoint::Checkpoint(id))
                    == old(self).local.metadata.catalog_of(keyspace_id)
                &&& final(self).local.metadata.count_at_point(keyspace_id, RestorePoint::Checkpoint(id))
                    == old(self).local.metadata.keyspace_heads@[keyspace_id.0].file_count
            },
            !old(self).local.metadata.has_keyspace(keyspace_id) ==> result == Err::<
                CheckpointId,
                StorageError,
            >(StorageError::NotFound { kind: "keyspace", id: keyspace_id.0 }),
            result is Err ==> final(self).local == old(self).local,
            result matches Ok(id) ==> {
                let made = final(self).local.metadata.checkpoints@[id.0];
                &&& final(self).local.metadata.checkpoints@.contains_key(id.0)
                &&& final(self).local.metadata.checkpoints@.remove(id.0) == old(self).local.metadata.checkpoints@.remove(id.0)
                &&& made.checkpoint_id == id
                &&& made.commit_seq.0 == old(self).local.metadata.next_commit_seq
                &&& made.time.0 == old(self).local.metadata.next_commit_seq
                &&& made.owner == MappingOwner::NativeKeyspace(keyspace_id)
                &&& final(self).local.metadata.next_commit_seq == old(self).local.metadata.next_commit_seq + 1
                &&& final(self).local.metadata.next_checkpoint_id == id.0 + 1
                &&& final(self).local == (LocalCoordinator {
                    metadata: MetadataInner {
                        checkpoints: final(self).local.metadata.checkpoints,
                        next_commit_seq: final(self).local.metadata.next_commit_seq,
                        next_checkpoint_id: final(self).local.metadata.next_checkpoint_id,
                        keyspace_roots: final(self).local.metadata.keyspace_roots,
                        next_keyspace_root_id: final(self).local.metadata.next_keyspace_root_id,..old(self).local.metadata
                    },..old(self).local
                })
                &&& final(self).local.metadata.next_keyspace_root_id == old(self).local.metadata.next_keyspace_root_id + 1
                &&& final(self).local.metadata.keyspace_roots@.remove(
                    old(self).local.metadata.next_keyspace_root_id,
                ) == old(self).local.metadata.keyspace_roots@.remove(
                    old(self).local.metadata.next_keyspace_root_id,
                )
            },
    {
        let result = self.local.checkpoint_keyspace(keyspace_id);
        self.due = PersistDue::Everything;
        result
    }

    /// Makes a keyspace that holds what another one holds. Neither sees later
    /// writes to the other.
    pub fn snapshot_keyspace(
        &mut self,
        source: KeyspaceId,
        request: &SnapshotKeyspaceRequest,
    ) -> (result: Result<KeyspaceId, StorageError>)
        requires
            old(self).wf(),
        ensures
            *final(self) == (DurableCoordinator {
                local: final(self).local,
                due: final(self).due,
                ..*old(self)
            }),
            final(self).due == PersistDue::Everything,
            final(self).wf(),
            final(self).follows(old(self)),
            final(self).local.keeps_store(&old(self).local),
            final(self).local.storage_nodes == old(self).local.storage_nodes,
            final(self).local.metadata.device_heads == old(self).local.metadata.device_heads,
            final(self).local.metadata.device_specs == old(self).local.metadata.device_specs,
            final(self).local.nodes() == old(self).local.nodes(),
            result is Ok <==> old(self).local.metadata.has_keyspace(source) && (match request.target {
                Some(wanted) => !old(self).local.metadata.has_keyspace(wanted) && wanted.0 < u128::MAX,
                None => old(self).local.metadata.next_keyspace_id < u128::MAX,
            }) && old(self).local.metadata.next_commit_seq < u64::MAX,
            result matches Ok(target) ==> {
                &&& !old(self).local.metadata.has_keyspace(target)
                &&& request.target matches Some(wanted) ==> target == wanted
                &&& final(self).local.metadata.has_keyspace(target)
                &&& forall|f: FileId| #[trigger]
                    final(self).local.metadata.file_head(target, f) == old(self).local.metadata.file_head(
                        source,
                        f,
                    )
                &&& forall|k: KeyspaceId, f: FileId|
                    old(self).local.metadata.has_keyspace(k) ==> #[trigger] final(self).local.metadata.file_head(k, f) == old(self).local.metadata.file_head(k, f)
            },
            !old(self).local.metadata.has_keyspace(source) ==> result == Err::<KeyspaceId, StorageError>(
                StorageError::NotFound { kind: "keyspace", id: source.0 },
            ),
            result matches Err(error) ==> error is NotFound || error is Conflict,
            result is Err ==> final(self).local.metadata == old(self).local.metadata,
            final(self).local == (LocalCoordinator {
                metadata: MetadataInner {
                    keyspace_heads: final(self).local.metadata.keyspace_heads,
                    keyspace_births: final(self).local.metadata.keyspace_births,
                    next_keyspace_id: final(self).local.metadata.next_keyspace_id,
                    next_commit_seq: final(self).local.metadata.next_commit_seq,..old(self).local.metadata
                },..old(self).local
            }),
            result matches Ok(target) ==> {
                let seq = CommitSeq(old(self).local.metadata.next_commit_seq);
                let head = final(self).local.metadata.keyspace_heads@[target.0];
                &&& final(self).local.metadata.keyspace_heads@.remove(target.0) == old(self).local.metadata.keyspace_heads@
                &&& head.keyspace_id == target
                &&& head.generation == KeyspaceGeneration(1)
                &&& head.latest_commit == seq
                &&& head.shard_roots@ == old(self).local.metadata.catalog_of(source)
                &&& final(self).local.metadata.keyspace_births@ == old(self).local.metadata.keyspace_births@.insert(target.0, seq)
                &&& final(self).local.metadata.next_commit_seq == seq.0 + 1
                &&& final(self).local.metadata.next_keyspace_id == if target.0 >= old(self).local.metadata.next_keyspace_id {
                    target.0 + 1
                } else {
                    old(self).local.metadata.next_keyspace_id as int
                }
            },
            result is Err ==> final(self).local == old(self).local,
            result matches Ok(target) ==> final(self).local.metadata.keyspace_heads@[target.0].file_count
                == old(self).local.metadata.keyspace_heads@[source.0].file_count,
            result matches Ok(target) ==> request.target is None ==> target.0 == old(self).local.metadata.next_keyspace_id,
    {
        let result = self.local.snapshot_keyspace(source, request);
        self.due = PersistDue::Everything;
        result
    }

    /// Makes a keyspace that holds what another one held at a point.
    pub fn restore_keyspace(&mut self, source: KeyspaceId, point: RestorePoint) -> (result: Result<
        KeyspaceId,
        StorageError,
    >)
        requires
            old(self).wf(),
        ensures
            *final(self) == (DurableCoordinator {
                local: final(self).local,
                due: final(self).due,
                ..*old(self)
            }),
            final(self).due == PersistDue::Everything,
            final(self).wf(),
            final(self).follows(old(self)),
            final(self).local.keeps_store(&old(self).local),
            final(self).local.storage_nodes == old(self).local.storage_nodes,
            final(self).local.metadata.device_heads == old(self).local.metadata.device_heads,
            final(self).local.metadata.device_specs == old(self).local.metadata.device_specs,
            final(self).local.nodes() == old(self).local.nodes(),
            result is Ok <==> old(self).local.metadata.has_keyspace_point(source, point) && old(self).local.metadata.next_keyspace_id < u128::MAX && old(self).local.metadata.next_commit_seq
                < u64::MAX,
            result matches Ok(target) ==> {
                &&& !old(self).local.metadata.has_keyspace(target)
                &&& final(self).local.metadata.has_keyspace(target)
                &&& forall|f: FileId| #[trigger]
                    final(self).local.metadata.file_head(target, f) == catalog_head(
                        old(self).local.metadata.keyspace_catalog_shards@,
                        old(self).local.metadata.catalog_at_point(source, point),
                        f,
                    )
                &&& forall|k: KeyspaceId, f: FileId|
                    old(self).local.metadata.has_keyspace(k) ==> #[trigger] final(self).local.metadata.file_head(k, f) == old(self).local.metadata.file_head(k, f)
            },
            result matches Err(error) ==> error is NotFound || error is Corrupt
                || error is Conflict,
            result is Err ==> final(self).local.metadata == old(self).local.metadata,
            final(self).local == (LocalCoordinator {
                metadata: MetadataInner {
                    keyspace_heads: final(self).local.metadata.keyspace_heads,
                    keyspace_births: final(self).local.metadata.keyspace_births,
                    next_keyspace_id: final(self).local.metadata.next_keyspace_id,
                    next_commit_seq: final(self).local.metadata.next_commit_seq,..old(self).local.metadata
                },
                observability: final(self).local.observability,..old(self).local
            }),
            result matches Ok(target) ==> {
                let seq = CommitSeq(old(self).local.metadata.next_commit_seq);
                let head = final(self).local.metadata.keyspace_heads@[target.0];
                &&& final(self).local.metadata.keyspace_heads@.remove(target.0) == old(self).local.metadata.keyspace_heads@
                &&& head.keyspace_id == target
                &&& head.generation == KeyspaceGeneration(1)
                &&& head.latest_commit == seq
                &&& head.shard_roots@ == old(self).local.metadata.catalog_at_point(source, point)
                &&& head.file_count == old(self).local.metadata.count_at_point(source, point)
                &&& final(self).local.metadata.keyspace_births@ == old(self).local.metadata.keyspace_births@.insert(target.0, seq)
                &&& final(self).local.metadata.next_commit_seq == seq.0 + 1
                &&& final(self).local.metadata.next_keyspace_id == if target.0 >= old(self).local.metadata.next_keyspace_id {
                    target.0 + 1
                } else {
                    old(self).local.metadata.next_keyspace_id as int
                }
            },
            result is Err ==> final(self).local == old(self).local,
            result matches Ok(target) ==> target.0 == old(self).local.metadata.next_keyspace_id,
    {
        let result = self.local.restore_keyspace(source, point);
        self.due = PersistDue::Everything;
        result
    }

    /// Makes a device that holds what another one holds. Neither sees later
    /// writes to the other.
    pub fn fork_device(&mut self, source: DeviceId, request: &ForkRequest) -> (result: Result<
        DeviceId,
        StorageError,
    >)
        requires
            old(self).wf(),
        ensures
            *final(self) == (DurableCoordinator {
                local: final(self).local,
                due: final(self).due,
                ..*old(self)
            }),
            final(self).due == PersistDue::Everything,
            final(self).wf(),
            final(self).follows(old(self)),
            final(self).local.keeps_store(&old(self).local),
            final(self).local.storage_nodes == old(self).local.storage_nodes,
            result is Ok <==> old(self).local.metadata.has_device(source) && (match request.target {
                Some(wanted) => !old(self).local.metadata.device_specs@.contains_key(wanted.0)
                    && wanted.0 < u128::MAX,
                None => old(self).local.metadata.next_device_id < u128::MAX,
            }) && old(self).local.metadata.next_commit_seq < u64::MAX,
            result matches Ok(target) ==> {
                &&& !old(self).local.metadata.has_device(target)
                &&& request.target matches Some(wanted) ==> target == wanted
                &&& final(self).local.metadata.has_device(target)
                &&& final(self).local.metadata.device_specs@[target.0] == old(self).local.metadata.device_specs@[source.0]
                &&& final(self).local.other_devices_kept(&old(self).local, target)
                &&& forall|byte: int| #[trigger]
                    final(self).local.device_byte(target, byte) == old(self).local.device_byte(source, byte)
            },
            !old(self).local.metadata.has_device(source) ==> (result matches Err(error)
                && error is NotFound),
            result is Err ==> final(self).local.metadata == old(self).local.metadata,
            final(self).local == (LocalCoordinator {
                metadata: MetadataInner {
                    device_specs: final(self).local.metadata.device_specs,
                    device_heads: final(self).local.metadata.device_heads,
                    fork_records: final(self).local.metadata.fork_records,
                    next_device_id: final(self).local.metadata.next_device_id,
                    next_commit_seq: final(self).local.metadata.next_commit_seq,..old(self).local.metadata
                },
                observability: final(self).local.observability,..old(self).local
            }),
            result matches Ok(target) ==> {
                let seq = old(self).local.metadata.next_commit_seq;
                let head = final(self).local.metadata.device_heads@[target.0];
                let record = final(self).local.metadata.fork_records@[seq as u128];
                &&& final(self).local.metadata.device_specs@ == old(self).local.metadata.device_specs@.insert(
                    target.0,
                    old(self).local.metadata.device_specs@[source.0],
                )
                &&& final(self).local.metadata.device_heads@.remove(target.0) == old(self).local.metadata.device_heads@
                &&& head.device_id == target
                &&& head.generation == DeviceGeneration(1)
                &&& head.latest_commit.0 == seq
                &&& final(self).local.metadata.next_commit_seq == seq + 1
                &&& final(self).local.metadata.fork_records@.contains_key(seq as u128)
                &&& final(self).local.metadata.fork_records@.remove(seq as u128) == old(self).local.metadata.fork_records@.remove(seq as u128)
                &&& record.source == source
                &&& record.target == target
                &&& record.commit_seq.0 == seq
                &&& record.shard_roots@ == final(self).local.metadata.roots_of(target)
                &&& final(self).local.metadata.next_device_id == if target.0 >= old(self).local.metadata.next_device_id {
                    target.0 + 1
                } else {
                    old(self).local.metadata.next_device_id as int
                }
            },
            result matches Ok(target) ==> final(self).local.metadata.roots_of(target) == old(self).local.metadata.roots_of(source),
            result is Err ==> final(self).local == old(self).local,
    {
        let result = self.local.fork_device(source, request);
        self.due = PersistDue::Everything;
        result
    }

    /// Makes a device that holds what another one held at a point.
    pub fn restore_device(&mut self, source: DeviceId, point: RestorePoint) -> (result: Result<
        DeviceId,
        StorageError,
    >)
        requires
            old(self).wf(),
        ensures
            *final(self) == (DurableCoordinator {
                local: final(self).local,
                due: final(self).due,
                ..*old(self)
            }),
            final(self).due == PersistDue::Everything,
            final(self).wf(),
            final(self).follows(old(self)),
            final(self).local.keeps_store(&old(self).local),
            final(self).local.storage_nodes == old(self).local.storage_nodes,
            result is Ok <==> old(self).local.metadata.has_point(source, point) && old(self).local.metadata.next_device_id < u128::MAX && old(self).local.metadata.next_commit_seq < u64::MAX,
            result matches Ok(target) ==> {
                &&& !old(self).local.metadata.has_device(target)
                &&& final(self).local.device_holds(
                    &old(self).local,
                    target,
                    old(self).local.metadata.roots_at_point(source, point),
                )
                &&& final(self).local.metadata.device_specs@[target.0] == old(self).local.metadata.device_specs@[source.0]
                &&& final(self).local.other_devices_kept(&old(self).local, target)
            },
            !old(self).local.metadata.has_point(source, point) ==> (result matches Err(error)
                && error is NotFound),
            result is Err ==> final(self).local.metadata == old(self).local.metadata,
            final(self).local == (LocalCoordinator {
                metadata: MetadataInner {
                    device_specs: final(self).local.metadata.device_specs,
                    device_heads: final(self).local.metadata.device_heads,
                    fork_records: final(self).local.metadata.fork_records,
                    next_device_id: final(self).local.metadata.next_device_id,
                    next_commit_seq: final(self).local.metadata.next_commit_seq,..old(self).local.metadata
                },
                observability: final(self).local.observability,..old(self).local
            }),
            result matches Ok(target) ==> {
                let seq = old(self).local.metadata.next_commit_seq;
                let head = final(self).local.metadata.device_heads@[target.0];
                let record = final(self).local.metadata.fork_records@[seq as u128];
                &&& final(self).local.metadata.device_specs@ == old(self).local.metadata.device_specs@.insert(
                    target.0,
                    old(self).local.metadata.device_specs@[source.0],
                )
                &&& final(self).local.metadata.device_heads@.remove(target.0) == old(self).local.metadata.device_heads@
                &&& head.device_id == target
                &&& head.generation == DeviceGeneration(1)
                &&& head.latest_commit.0 == seq
                &&& final(self).local.metadata.next_commit_seq == seq + 1
                &&& final(self).local.metadata.fork_records@.contains_key(seq as u128)
                &&& final(self).local.metadata.fork_records@.remove(seq as u128) == old(self).local.metadata.fork_records@.remove(seq as u128)
                &&& record.source == source
                &&& record.target == target
                &&& record.commit_seq.0 == seq
                &&& record.shard_roots@ == final(self).local.metadata.roots_of(target)
                &&& final(self).local.metadata.next_device_id == if target.0 >= old(self).local.metadata.next_device_id {
                    target.0 + 1
                } else {
                    old(self).local.metadata.next_device_id as int
                }
            },
            result matches Ok(target) ==> target.0 == old(self).local.metadata.next_device_id
                && final(self).local.metadata.roots_of(target) == old(self).local.metadata.roots_at_point(
                source,
                point,
            ),
            result is Err ==> final(self).local == old(self).local,
    {
        let result = self.local.restore_device(source, point);
        self.due = PersistDue::Everything;
        result
    }

    /// Takes a device away; its past can still be restored.
    pub fn delete_device(&mut self, device_id: DeviceId) -> (result: Result<
        DeleteResult,
        StorageError,
    >)
        requires
            old(self).wf(),
        ensures
            *final(self) == (DurableCoordinator {
                local: final(self).local,
                due: final(self).due,
                ..*old(self)
            }),
            final(self).due == PersistDue::Everything,
            final(self).wf(),
            final(self).follows(old(self)),
            final(self).local.keeps_store(&old(self).local),
            final(self).local.storage_nodes == old(self).local.storage_nodes,
            result is Ok <==> old(self).local.metadata.has_device(device_id) && old(self).local.metadata.next_commit_seq < u64::MAX,
            result matches Ok(deleted) ==> {
                &&& deleted == (DeleteResult {
                    device_id,
                    commit_seq: CommitSeq(old(self).local.metadata.next_commit_seq),
                })
                &&& final(self).local.metadata.device_heads@ == old(self).local.metadata.device_heads@.remove(
                    device_id.0,
                )
                &&& final(self).local.metadata.device_specs == old(self).local.metadata.device_specs
                &&& final(self).local.metadata.any_device(device_id)
                &&& final(self).local.metadata.any_roots_of(device_id) == old(self).local.metadata.roots_of(
                    device_id,
                )
                &&& final(self).local.metadata.next_commit_seq == old(self).local.metadata.next_commit_seq + 1
            },
            !old(self).local.metadata.has_device(device_id) ==> result == Err::<
                DeleteResult,
                StorageError,
            >(StorageError::NotFound { kind: "device", id: device_id.0 }),
            result is Err ==> final(self).local == old(self).local,
            result is Ok ==> {
                let seq = old(self).local.metadata.next_commit_seq;
                let record = final(self).local.metadata.delete_records@[seq as u128];
                let gone = final(self).local.metadata.deleted_device_heads@[device_id.0];
                let head = old(self).local.metadata.device_heads@[device_id.0];
                &&& final(self).local == (LocalCoordinator {
                    metadata: MetadataInner {
                        device_heads: final(self).local.metadata.device_heads,
                        deleted_device_heads: final(self).local.metadata.deleted_device_heads,
                        delete_records: final(self).local.metadata.delete_records,
                        next_commit_seq: final(self).local.metadata.next_commit_seq,..old(self).local.metadata
                    },..old(self).local
                })
                &&& final(self).local.metadata.deleted_device_heads@.contains_key(device_id.0)
                &&& final(self).local.metadata.deleted_device_heads@.remove(device_id.0) == old(self).local.metadata.deleted_device_heads@.remove(device_id.0)
                &&& gone.device_id == head.device_id
                &&& gone.generation == head.generation
                &&& gone.shard_roots@ == head.shard_roots@
                &&& gone.latest_commit.0 == seq
                &&& final(self).local.metadata.delete_records@.contains_key(seq as u128)
                &&& final(self).local.metadata.delete_records@.remove(seq as u128) == old(self).local.metadata.delete_records@.remove(seq as u128)
                &&& record.device_id == device_id
                &&& record.commit_seq.0 == seq
                &&& record.time.0 == seq
                &&& record.shard_roots@ == head.shard_roots@
            },
    {
        let result = self.local.delete_device(device_id);
        self.due = PersistDue::Everything;
        result
    }

    /// Gives a stream up; what it has not published is gone.
    pub fn release_append_stream(&mut self, stream: &AppendStream) -> (result: Result<
        (),
        StorageError,
    >)
        requires
            old(self).wf(),
        ensures
            *final(self) == (DurableCoordinator {
                local: final(self).local,
                due: final(self).due,
                ..*old(self)
            }),
            final(self).due == PersistDue::Everything,
            final(self).wf(),
            final(self).follows(old(self)),
            final(self).local.only_streams_changed(&old(self).local),
            result is Ok <==> token_open(old(self).local.metadata.append_streams@, *stream),
            result is Ok ==> {
                let before = old(self).local.metadata.append_streams@[stream.stream_id.0];
                &&& !token_open(final(self).local.metadata.append_streams@, *stream)
                &&& final(self).local.metadata.append_streams@ == old(self).local.metadata.append_streams@.insert(
                    stream.stream_id.0,
                    LiveAppendStream {
                        state: AppendStreamState {
                            status: AppendStreamStatus::Released,..before.state
                        },..before
                    },
                )
                &&& final(self).local.append_stream_storage_lanes@ == old(self).local.append_stream_storage_lanes@.remove(stream.stream_id.0)
                &&& final(self).local == (LocalCoordinator {
                    metadata: MetadataInner {
                        append_streams: final(self).local.metadata.append_streams,..old(self).local.metadata
                    },
                    append_stream_storage_lanes: final(self).local.append_stream_storage_lanes,..old(self).local
                })
            },
            result matches Err(error) ==> error is Conflict && final(self).local == old(self).local,
    {
        let result = self.local.release_append_stream(stream);
        self.due = PersistDue::Everything;
        result
    }

    /// Breaks a stream off.
    pub fn abort_append_stream(&mut self, stream: &AppendStream) -> (result: Result<
        (),
        StorageError,
    >)
        requires
            old(self).wf(),
        ensures
            *final(self) == (DurableCoordinator {
                local: final(self).local,
                due: final(self).due,
                ..*old(self)
            }),
            final(self).due == PersistDue::Everything,
            final(self).wf(),
            final(self).follows(old(self)),
            final(self).local.only_streams_changed(&old(self).local),
            result is Ok <==> token_open(old(self).local.metadata.append_streams@, *stream),
            result is Ok ==> {
                let before = old(self).local.metadata.append_streams@[stream.stream_id.0];
                &&& !token_open(final(self).local.metadata.append_streams@, *stream)
                &&& final(self).local.metadata.append_streams@ == old(self).local.metadata.append_streams@.insert(
                    stream.stream_id.0,
                    LiveAppendStream {
                        state: AppendStreamState {
                            status: AppendStreamStatus::Aborted,..before.state
                        },..before
                    },
                )
                &&& final(self).local.append_stream_storage_lanes@ == old(self).local.append_stream_storage_lanes@.remove(stream.stream_id.0)
                &&& final(self).local == (LocalCoordinator {
                    metadata: MetadataInner {
                        append_streams: final(self).local.metadata.append_streams,..old(self).local.metadata
                    },
                    append_stream_storage_lanes: final(self).local.append_stream_storage_lanes,..old(self).local
                })
            },
            result matches Err(error) ==> error is Conflict && final(self).local == old(self).local,
    {
        let result = self.local.abort_append_stream(stream);
        self.due = PersistDue::Everything;
        result
    }

    /// Writes zeroes, which takes no space.
    pub fn write_zeroes(&mut self, device_id: DeviceId, offset: u64, len: u64) -> (result: Result<
        WriteCommit,
        StorageError,
    >)
        requires
            old(self).wf(),
        ensures
            *final(self) == (DurableCoordinator {
                local: final(self).local,
                due: final(self).due,
                ..*old(self)
            }),
            final(self).due == match result {
                Ok(commit) => PersistDue::Commits(commit.commit_seq),
                Err(_) => PersistDue::Nothing,
            },
            final(self).wf(),
            final(self).follows(old(self)),
            final(self).local.only_device_changed(&old(self).local, device_id),
            final(self).local.moved_within(&old(self).local, 0),
            final(self).local.storage_nodes == old(self).local.storage_nodes,
            result is Ok ==> old(self).local.metadata.has_device(device_id) && (ByteRange {
                offset,
                len,
            }).fits_device(old(self).local.metadata.device_specs@[device_id.0])
                && final(self).local.range_zeroed(&old(self).local, device_id, ByteRange { offset, len }),
            result matches Ok(commit) ==> commit == (WriteCommit {
                device_id,
                commit_seq: final(self).local.metadata.device_heads@[device_id.0].latest_commit,
                range: ByteRange { offset, len },
                durability: WriteDurability::Acknowledged,
            }),
            result matches Ok(commit) ==> final(self).local.maps_nothing(
                device_id,
                ByteRange { offset, len },
            ) && if old(self).local.maps_nothing(device_id, ByteRange { offset, len }) {
                final(self).local == old(self).local
            } else {
                commit.commit_seq.0 == old(self).local.metadata.next_commit_seq && commit.commit_seq.0
                    > old(self).local.metadata.device_heads@[device_id.0].latest_commit.0
            },
            old(self).local.metadata.has_device(device_id) && (ByteRange { offset, len }).fits_device(
                old(self).local.metadata.device_specs@[device_id.0],
            ) && old(self).local.maps_nothing(device_id, ByteRange { offset, len }) ==> result is Ok,
            !old(self).local.metadata.has_device(device_id) ==> (result matches Err(error)
                && error is NotFound),
            old(self).local.metadata.has_device(device_id) && !(ByteRange { offset, len }).fits_device(
                old(self).local.metadata.device_specs@[device_id.0],
            ) ==> (result matches Err(error) && error is InvalidArgument) && final(self).local == old(self).local,
            result is Err ==> final(self).local.metadata.device_heads == old(self).local.metadata.device_heads,
            result is Err ==> !old(self).local.metadata.has_device(device_id) || !(ByteRange {
                offset,
                len,
            }).fits_device(old(self).local.metadata.device_specs@[device_id.0])
                || !old(self).local.room_for(0),
            result matches Ok(commit) ==> (!old(self).local.maps_nothing(
                device_id,
                ByteRange { offset, len },
            ) ==> final(self).local.metadata.block_commit_recorded(
                &old(self).local.metadata,
                device_id,
                commit.commit_seq,
            )),
    {
        let result = self.local.write_zeroes(device_id, offset, len);
        self.due = match &result {
            Ok(commit) => PersistDue::Commits(commit.commit_seq),
            Err(_) => PersistDue::Nothing,
        };
        result
    }

    /// Takes a range out of a device; it reads as zeroes.
    pub fn discard_device(&mut self, device_id: DeviceId, offset: u64, len: u64) -> (result: Result<
        WriteCommit,
        StorageError,
    >)
        requires
            old(self).wf(),
        ensures
            *final(self) == (DurableCoordinator {
                local: final(self).local,
                due: final(self).due,
                ..*old(self)
            }),
            final(self).due == match result {
                Ok(commit) => PersistDue::Commits(commit.commit_seq),
                Err(_) => PersistDue::Nothing,
            },
            final(self).wf(),
            final(self).follows(old(self)),
            final(self).local.only_device_changed(&old(self).local, device_id),
            final(self).local.moved_within(&old(self).local, 0),
            final(self).local.storage_nodes == old(self).local.storage_nodes,
            result is Ok ==> old(self).local.metadata.has_device(device_id) && (ByteRange {
                offset,
                len,
            }).fits_device(old(self).local.metadata.device_specs@[device_id.0])
                && final(self).local.range_zeroed(&old(self).local, device_id, ByteRange { offset, len }),
            result matches Ok(commit) ==> commit == (WriteCommit {
                device_id,
                commit_seq: final(self).local.metadata.device_heads@[device_id.0].latest_commit,
                range: ByteRange { offset, len },
                durability: WriteDurability::Acknowledged,
            }),
            result matches Ok(commit) ==> final(self).local.maps_nothing(
                device_id,
                ByteRange { offset, len },
            ) && if old(self).local.maps_nothing(device_id, ByteRange { offset, len }) {
                final(self).local == old(self).local
            } else {
                commit.commit_seq.0 == old(self).local.metadata.next_commit_seq && commit.commit_seq.0
                    > old(self).local.metadata.device_heads@[device_id.0].latest_commit.0
            },
            old(self).local.metadata.has_device(device_id) && (ByteRange { offset, len }).fits_device(
                old(self).local.metadata.device_specs@[device_id.0],
            ) && old(self).local.maps_nothing(device_id, ByteRange { offset, len }) ==> result is Ok,
            !old(self).local.metadata.has_device(device_id) ==> (result matches Err(error)
                && error is NotFound),
            old(self).local.metadata.has_device(device_id) && !(ByteRange { offset, len }).fits_device(
                old(self).local.metadata.device_specs@[device_id.0],
            ) ==> (result matches Err(error) && error is InvalidArgument) && final(self).local == old(self).local,
            result is Err ==> final(self).local.metadata.device_heads == old(self).local.metadata.device_heads,
            result is Err ==> !old(self).local.metadata.has_device(device_id) || !(ByteRange {
                offset,
                len,
            }).fits_device(old(self).local.metadata.device_specs@[device_id.0])
                || !old(self).local.room_for(0),
            result matches Ok(commit) ==> (!old(self).local.maps_nothing(
                device_id,
                ByteRange { offset, len },
            ) ==> final(self).local.metadata.block_commit_recorded(
                &old(self).local.metadata,
                device_id,
                commit.commit_seq,
            )),
    {
        let result = self.local.discard_device(device_id, offset, len);
        self.due = match &result {
            Ok(commit) => PersistDue::Commits(commit.commit_seq),
            Err(_) => PersistDue::Nothing,
        };
        result
    }

    /// Writes a batch to a file with checksums.
    pub fn commit_file_batch(
        &mut self,
        keyspace_id: KeyspaceId,
        file_id: FileId,
        writes: &[FileBatchWrite],
        durability: WriteDurability,
    ) -> (result: Result<FileWriteCommit, StorageError>)
        requires
            old(self).wf(),
        ensures
            *final(self) == (DurableCoordinator {
                local: final(self).local,
                due: final(self).due,
                ..*old(self)
            }),
            final(self).due == match (result, durability) {
                (Ok(commit), WriteDurability::Flushed) => PersistDue::Commits(commit.commit_seq),
                _ => PersistDue::Nothing,
            },
            final(self).wf(),
            final(self).follows(old(self)),
            final(self).local.only_file_changed(&old(self).local, keyspace_id, file_id),
            final(self).local.metadata.catalogs_past_kept(&old(self).local.metadata),
            whole_blocks(old(self).local.segments(), old(self).local.block_size()) ==> whole_blocks(
                final(self).local.segments(),
                final(self).local.block_size(),
            ),
            result is Ok ==> old(self).local.metadata.has_file(keyspace_id, file_id) && file_batch_fits(
                writes@,
            ) && final(self).local.file_batch_applied(&old(self).local, keyspace_id, file_id, writes@),
            result matches Ok(commit) ==> commit.keyspace_id == keyspace_id && commit.file_id
                == file_id && commit.durability == durability && commit.version
                == final(self).local.metadata.file_head(keyspace_id, file_id)->0.version
                && commit.commit_seq == final(self).local.metadata.file_head(
                keyspace_id,
                file_id,
            )->0.latest_commit,
            result matches Ok(commit) ==> if file_batch_places(writes@) == Set::<int>::empty() {
                commit.range.len == 0 && final(self).local == (LocalCoordinator {
                    native_file_batch_profiler: final(self).local.native_file_batch_profiler,..old(self).local
                })
            } else {
                &&& file_span(writes@, commit.range)
                &&& commit.commit_seq.0 == old(self).local.metadata.next_commit_seq
                &&& commit.version.0 == old(self).local.metadata.file_head(
                    keyspace_id,
                    file_id,
                )->0.version.0 + 1
                &&& final(self).local.metadata.append_streams@ == old(self).local.metadata.append_streams@.map_values(
                    |stream: LiveAppendStream| fenced(stream, keyspace_id, file_id),
                )
            },
            old(self).local.metadata.has_file(keyspace_id, file_id) ==> final(self).local.moved_within(
                &old(self).local,
                old(self).local.file_limit(keyspace_id, file_id),
            ),
            !old(self).local.metadata.has_file(keyspace_id, file_id) ==> final(self).local == old(self).local,
            result is Err ==> final(self).local.metadata.file_head(keyspace_id, file_id) == old(self).local.metadata.file_head(keyspace_id, file_id),
            !old(self).local.metadata.has_file(keyspace_id, file_id) ==> (result matches Err(error)
                && error is NotFound),
            old(self).local.metadata.has_file(keyspace_id, file_id) && (!file_batch_fits(writes@)
                || file_batch_too_large(writes@)) ==> (result matches Err(error)
                && error is InvalidArgument) && final(self).local == old(self).local,
            old(self).local.metadata.has_file(keyspace_id, file_id) && file_batch_fits(writes@)
                && !file_batch_too_large(writes@) && file_batch_beyond(
                writes@,
                old(self).local.file_limit(keyspace_id, file_id),
            ) ==> (result matches Err(error) && error is InvalidArgument)
                && final(self).local == (LocalCoordinator {
                observability: final(self).local.observability,..old(self).local
            }) && final(self).local.observability.counters == counted(
                old(self).local.observability.counters,
                StorageEventKind::CoordinatorWriteStarted,
            ),
            result is Ok ==> final(self).local.file_batch_profiled(&old(self).local, writes@),
            result is Err ==> final(self).local.native_file_batch_profiler == old(self).local.native_file_batch_profiler,
            result is Err ==> old(self).local.refuses_file_batch(
                keyspace_id,
                file_id,
                writes@,
            ),
            result is Ok && file_batch_places(writes@) != Set::<int>::empty()
                ==> final(self).local.metadata.file_commit_recorded(
                &old(self).local.metadata,
                keyspace_id,
                old(self).local.metadata.file_head(keyspace_id, file_id)->0,
                final(self).local.metadata.file_head(keyspace_id, file_id)->0,
            ),
            result is Ok ==> final(self).local.file_batch_stored(
                &old(self).local,
                keyspace_id,
                file_id,
                writes@,
                PayloadIntegrity::Verified,
            ),
            segments_added(
                old(self).local.segments(),
                final(self).local.segments(),
                set![PayloadIntegrity::Verified],
                old(self).local.block_size(),
                if result is Ok {
                    SegmentLifecycleState::Referenced
                } else {
                    SegmentLifecycleState::DurablePendingMetadata
                },
            ),
            result is Ok && file_batch_places(writes@) != Set::<int>::empty() ==> write_counted(
                old(self).local.observability.counters,
                final(self).local.observability.counters,
                true,
            ),
    {
        let result = self.local.commit_file_batch(keyspace_id, file_id, writes, durability);
        self.due = match (&result, durability) {
            (Ok(commit), WriteDurability::Flushed) => PersistDue::Commits(commit.commit_seq),
            _ => PersistDue::Nothing,
        };
        result
    }

    pub fn commit_file_batch_with_integrity(
        &mut self,
        keyspace_id: KeyspaceId,
        file_id: FileId,
        writes: &[FileBatchWrite],
        durability: WriteDurability,
        payload_integrity: PayloadIntegrity,
    ) -> (result: Result<FileWriteCommit, StorageError>)
        requires
            old(self).wf(),
        ensures
            *final(self) == (DurableCoordinator {
                local: final(self).local,
                due: final(self).due,
                ..*old(self)
            }),
            final(self).due == match (result, durability) {
                (Ok(commit), WriteDurability::Flushed) => PersistDue::Commits(commit.commit_seq),
                _ => PersistDue::Nothing,
            },
            final(self).wf(),
            final(self).follows(old(self)),
            final(self).local.only_file_changed(&old(self).local, keyspace_id, file_id),
            final(self).local.metadata.catalogs_past_kept(&old(self).local.metadata),
            whole_blocks(old(self).local.segments(), old(self).local.block_size()) ==> whole_blocks(
                final(self).local.segments(),
                final(self).local.block_size(),
            ),
            result is Ok ==> old(self).local.metadata.has_file(keyspace_id, file_id) && file_batch_fits(
                writes@,
            ) && final(self).local.file_batch_applied(&old(self).local, keyspace_id, file_id, writes@),
            result matches Ok(commit) ==> commit.keyspace_id == keyspace_id && commit.file_id
                == file_id && commit.durability == durability && commit.version
                == final(self).local.metadata.file_head(keyspace_id, file_id)->0.version
                && commit.commit_seq == final(self).local.metadata.file_head(
                keyspace_id,
                file_id,
            )->0.latest_commit,
            result matches Ok(commit) ==> if file_batch_places(writes@) == Set::<int>::empty() {
                commit.range.len == 0 && final(self).local == (LocalCoordinator {
                    native_file_batch_profiler: final(self).local.native_file_batch_profiler,..old(self).local
                })
            } else {
                &&& file_span(writes@, commit.range)
                &&& commit.commit_seq.0 == old(self).local.metadata.next_commit_seq
                &&& commit.version.0 == old(self).local.metadata.file_head(
                    keyspace_id,
                    file_id,
                )->0.version.0 + 1
                &&& final(self).local.metadata.append_streams@ == old(self).local.metadata.append_streams@.map_values(
                    |stream: LiveAppendStream| fenced(stream, keyspace_id, file_id),
                )
            },
            old(self).local.metadata.has_file(keyspace_id, file_id) ==> final(self).local.moved_within(
                &old(self).local,
                old(self).local.file_limit(keyspace_id, file_id),
            ),
            !old(self).local.metadata.has_file(keyspace_id, file_id) ==> final(self).local == old(self).local,
            result is Err ==> final(self).local.metadata.file_head(keyspace_id, file_id) == old(self).local.metadata.file_head(keyspace_id, file_id),
            !old(self).local.metadata.has_file(keyspace_id, file_id) ==> (result matches Err(error)
                && error is NotFound),
            old(self).local.metadata.has_file(keyspace_id, file_id) && (!file_batch_fits(writes@)
                || file_batch_too_large(writes@)) ==> (result matches Err(error)
                && error is InvalidArgument) && final(self).local == old(self).local,
            old(self).local.metadata.has_file(keyspace_id, file_id) && file_batch_fits(writes@)
                && !file_batch_too_large(writes@) && file_batch_beyond(
                writes@,
                old(self).local.file_limit(keyspace_id, file_id),
            ) ==> (result matches Err(error) && error is InvalidArgument)
                && final(self).local == (LocalCoordinator {
                observability: final(self).local.observability,..old(self).local
            }) && final(self).local.observability.counters == counted(
                old(self).local.observability.counters,
                StorageEventKind::CoordinatorWriteStarted,
            ),
            result is Ok ==> final(self).local.file_batch_profiled(&old(self).local, writes@),
            result is Err ==> final(self).local.native_file_batch_profiler == old(self).local.native_file_batch_profiler,
            result is Err ==> old(self).local.refuses_file_batch(
                keyspace_id,
                file_id,
                writes@,
            ),
            result is Ok && file_batch_places(writes@) != Set::<int>::empty()
                ==> final(self).local.metadata.file_commit_recorded(
                &old(self).local.metadata,
                keyspace_id,
                old(self).local.metadata.file_head(keyspace_id, file_id)->0,
                final(self).local.metadata.file_head(keyspace_id, file_id)->0,
            ),
            result is Ok ==> final(self).local.file_batch_stored(
                &old(self).local,
                keyspace_id,
                file_id,
                writes@,
                payload_integrity,
            ),
            segments_added(
                old(self).local.segments(),
                final(self).local.segments(),
                set![payload_integrity],
                old(self).local.block_size(),
                if result is Ok {
                    SegmentLifecycleState::Referenced
                } else {
                    SegmentLifecycleState::DurablePendingMetadata
                },
            ),
            result is Ok && file_batch_places(writes@) != Set::<int>::empty() ==> write_counted(
                old(self).local.observability.counters,
                final(self).local.observability.counters,
                true,
            ),
    {
        let result = self.local.commit_file_batch_with_integrity(keyspace_id, file_id, writes, durability, payload_integrity);
        self.due = match (&result, durability) {
            (Ok(commit), WriteDurability::Flushed) => PersistDue::Commits(commit.commit_seq),
            _ => PersistDue::Nothing,
        };
        result
    }

    /// Opens a stream at the end of a file; streams that were open there are
    /// fenced.
    pub fn open_append_stream(&mut self, keyspace_id: KeyspaceId, file_id: FileId) -> (result:
        Result<AppendStream, StorageError>)
        requires
            old(self).wf(),
        ensures
            *final(self) == (DurableCoordinator {
                local: final(self).local,
                due: final(self).due,
                ..*old(self)
            }),
            final(self).due == PersistDue::Nothing,
            final(self).wf(),
            final(self).follows(old(self)),
            final(self).local.only_streams_changed(&old(self).local),
            result is Ok <==> old(self).local.metadata.has_file(keyspace_id, file_id) && old(self).local.metadata.next_append_stream_id < u128::MAX && file_epoch(
                old(self).local.metadata.file_writer_epochs@,
                keyspace_id,
                file_id,
            ) < u64::MAX,
            result matches Ok(token) ==> {
                &&& token.keyspace_id == keyspace_id
                &&& token.file_id == file_id
                &&& token.writer_epoch.0 == file_epoch(
                    old(self).local.metadata.file_writer_epochs@,
                    keyspace_id,
                    file_id,
                ) + 1
                &&& token.visible_base_size == old(self).local.file_size(keyspace_id, file_id)
                &&& token.stream_id.0 == old(self).local.metadata.next_append_stream_id
                &&& token.base_version == old(self).local.metadata.file_head(
                    keyspace_id,
                    file_id,
                )->0.version
                &&& final(self).local.metadata.append_streams@.remove(token.stream_id.0) == old(self).local.metadata.append_streams@.map_values(
                    |stream: LiveAppendStream| fenced(stream, keyspace_id, file_id),
                )
                &&& final(self).local.metadata.append_streams@[token.stream_id.0].state.published_through
                    == token.visible_base_size
                &&& token_open(final(self).local.metadata.append_streams@, token)
                &&& final(self).local.stream_tail(token.stream_id) == token.visible_base_size
                &&& forall|other: AppendStream|
                    #![trigger token_open(final(self).local.metadata.append_streams@, other)]
                    token_open(final(self).local.metadata.append_streams@, other) && other.keyspace_id
                        == keyspace_id && other.file_id == file_id ==> other == token
            },
            !old(self).local.metadata.has_file(keyspace_id, file_id) ==> (result matches Err(error)
                && error is NotFound),
            final(self).local.metadata.append_publish_tickets == old(self).local.metadata.append_publish_tickets,
            final(self).local.append_run_logs == old(self).local.append_run_logs,
            final(self).local.storage_nodes == old(self).local.storage_nodes,
            final(self).local.next_write_intent == old(self).local.next_write_intent,
            result is Err ==> final(self).local == old(self).local,
    {
        let result = self.local.open_append_stream(keyspace_id, file_id);
        self.due = PersistDue::Nothing;
        result
    }

    /// Asks for a stream to be published up to a place.
    pub fn submit_append_publish(&mut self, stream: &AppendStream, publish_through: u64) -> (result:
        Result<AppendPublishTicket, StorageError>)
        requires
            old(self).wf(),
        ensures
            *final(self) == (DurableCoordinator {
                local: final(self).local,
                due: final(self).due,
                ..*old(self)
            }),
            final(self).due == PersistDue::Nothing,
            final(self).wf(),
            final(self).follows(old(self)),
            final(self).local.only_streams_changed(&old(self).local),
            final(self).local.metadata.append_streams == old(self).local.metadata.append_streams,
            final(self).local.metadata.file_writer_epochs == old(self).local.metadata.file_writer_epochs,
            final(self).local.metadata.next_append_stream_id == old(self).local.metadata.next_append_stream_id,
            final(self).local.metadata.next_append_ticket_id == old(self).local.metadata.next_append_ticket_id,
            final(self).local == (LocalCoordinator { metadata: final(self).local.metadata, ..old(self).local }),
            final(self).local.metadata.next_append_publish_ticket_id == if old(self).local.metadata.next_append_publish_ticket_id == u128::MAX {
                u128::MAX as int
            } else {
                old(self).local.metadata.next_append_publish_ticket_id + 1
            },
            result is Err ==> final(self).local.metadata == (MetadataInner {
                next_append_publish_ticket_id: final(self).local.metadata.next_append_publish_ticket_id,..old(self).local.metadata
            }),
            result matches Ok(ticket) ==> ticket.ticket_id.0 == old(self).local.metadata.next_append_publish_ticket_id
                && final(self).local.metadata.append_publish_tickets@.remove(ticket.ticket_id.0) == old(self).local.metadata.append_publish_tickets@.remove(ticket.ticket_id.0),
            final(self).local.append_run_logs == old(self).local.append_run_logs,
            result is Ok <==> token_open(old(self).local.metadata.append_streams@, *stream) && old(self).local.metadata.append_streams@[stream.stream_id.0].state.published_through
                < publish_through <= old(self).local.stream_tail(stream.stream_id) && old(self).local.metadata.next_append_publish_ticket_id < u128::MAX,
            result matches Ok(ticket) ==> ticket.keyspace_id == stream.keyspace_id && ticket.file_id
                == stream.file_id && ticket.stream_id == stream.stream_id && ticket.writer_epoch
                == stream.writer_epoch && ticket.publish_through == publish_through
                && final(self).local.metadata.append_publish_tickets@.contains_key(ticket.ticket_id.0)
                && final(self).local.metadata.append_publish_tickets@[ticket.ticket_id.0]
                == (AppendPublishTicketRecord { ticket, stream: *stream, completed: None }),
            !token_open(old(self).local.metadata.append_streams@, *stream) ==> (result matches Err(error)
                && error is Conflict),
    {
        let result = self.local.submit_append_publish(stream, publish_through);
        self.due = PersistDue::Nothing;
        result
    }

    /// Takes the oldest events out, at most `max` of them.
    pub fn drain_events(&mut self, max: usize) -> (taken: Vec<StorageEvent>)
        requires
            old(self).wf(),
        ensures
            *final(self) == (DurableCoordinator {
                local: final(self).local,
                due: final(self).due,
                ..*old(self)
            }),
            final(self).due == PersistDue::Nothing,
            final(self).wf(),
            final(self).follows(old(self)),
            final(self).local == (LocalCoordinator {
                observability: final(self).local.observability,..old(self).local
            }),
            final(self).local.observability.counters == old(self).local.observability.counters,
            taken@ + final(self).local.observability.events.items@ == old(self).local.observability.events.items@,
            taken@.len() == if max <= old(self).local.observability.events.items@.len() {
                max as nat
            } else {
                old(self).local.observability.events.items@.len()
            },
    {
        let taken = self.local.drain_events(max);
        self.due = PersistDue::Nothing;
        taken
    }

    /// Starts to keep the profiles of reads.
    pub fn enable_read_profiling(&mut self, capacity: usize) -> (result: Result<(), StorageError>)
        requires
            old(self).wf(),
        ensures
            *final(self) == (DurableCoordinator {
                local: final(self).local,
                due: final(self).due,
                ..*old(self)
            }),
            final(self).due == PersistDue::Nothing,
            final(self).wf(),
            final(self).follows(old(self)),
            result is Ok <==> capacity > 0,
            result is Ok ==> final(self).local == (LocalCoordinator {
                read_profiler: final(self).local.read_profiler,..old(self).local
            }) && (final(self).local.read_profiler matches Some(profiler) && profiler.capacity == capacity
                && profiler.items@.len() == 0),
            result matches Err(error) ==> error is InvalidArgument && final(self).local == old(self).local,
    {
        let result = self.local.enable_read_profiling(capacity);
        self.due = PersistDue::Nothing;
        result
    }

    /// Takes the oldest read profiles out, at most `max` of them.
    pub fn drain_read_profiles(&mut self, max: usize) -> (taken: Vec<ReadProfile>)
        requires
            old(self).wf(),
        ensures
            *final(self) == (DurableCoordinator {
                local: final(self).local,
                due: final(self).due,
                ..*old(self)
            }),
            final(self).due == PersistDue::Nothing,
            final(self).wf(),
            final(self).follows(old(self)),
            final(self).local == (LocalCoordinator {
                read_profiler: final(self).local.read_profiler,..old(self).local
            }),
            old(self).local.read_profiler is None ==> taken@.len() == 0 && final(self).local.read_profiler is None,
            old(self).local.read_profiler matches Some(before) ==> (
            final(self).local.read_profiler matches Some(after) && after.capacity == before.capacity
                && taken@ + after.items@ == before.items@ && taken@.len() == if max
                <= before.items@.len() {
                max as nat
            } else {
                before.items@.len()
            }),
    {
        let taken = self.local.drain_read_profiles(max);
        self.due = PersistDue::Nothing;
        taken
    }

    /// Gives up the segments that nothing maps and that were released, or
    /// whose write intents are over.
    pub fn run_storage_node_custodian(&mut self, expired_write_intents: &Vec<WriteIntentId>) -> (report:
        StorageNodeCustodianReport)
        requires
            old(self).wf(),
        ensures
            *final(self) == (DurableCoordinator {
                local: final(self).local,
                due: final(self).due,
                ..*old(self)
            }),
            final(self).due == PersistDue::Everything,
            final(self).wf(),
            final(self).follows(old(self)),
            final(self).local == (LocalCoordinator {
                storage_nodes: final(self).local.storage_nodes,
                observability: final(self).local.observability,..old(self).local
            }),
            final(self).local.storage_nodes == (StorageNodeRegistry {
                segments: final(self).local.storage_nodes.segments,..old(self).local.storage_nodes
            }),
            final(self).local.contents_kept(&old(self).local),
            final(self).local.observability.counters == counted(
                old(self).local.observability.counters,
                StorageEventKind::StorageNodeCustodianRan,
            ),
            lists_given_up(
                report.expired_reservations@,
                old(self).local.segments(),
                old(self).local.storage_nodes.node_ids@,
                old(self).local.nodes(),
                expired_write_intents@,
                Disposal::Expired,
            ),
            lists_given_up(
                report.failed_writes@,
                old(self).local.segments(),
                old(self).local.storage_nodes.node_ids@,
                old(self).local.nodes(),
                expired_write_intents@,
                Disposal::Failed,
            ),
            lists_given_up(
                report.orphan_segments@,
                old(self).local.segments(),
                old(self).local.storage_nodes.node_ids@,
                old(self).local.nodes(),
                expired_write_intents@,
                Disposal::Orphaned,
            ),
            lists_given_up(
                report.deleted_released_segments@,
                old(self).local.segments(),
                old(self).local.storage_nodes.node_ids@,
                old(self).local.nodes(),
                expired_write_intents@,
                Disposal::Deleted,
            ),
            forall|id: u128| #[trigger]
                final(self).local.segments().contains_key(id) <==> old(self).local.segments().contains_key(id)
                    && (any_node_names(old(self).local.nodes(), id) || disposal_of(
                    old(self).local.segments()[id],
                    expired_write_intents@,
                ) is None),
            forall|id: u128| #[trigger]
                final(self).local.segments().contains_key(id) ==> final(self).local.segments()[id] == old(self).local.segments()[id],
    {
        let report = self.local.run_storage_node_custodian(expired_write_intents);
        self.due = PersistDue::Everything;
        report
    }

    pub fn device_info(&self, device_id: DeviceId) -> (result: Result<DeviceInfo, StorageError>)
        requires
            self.wf(),
        ensures
            result is Ok <==> self.local.metadata.has_device(device_id),
            result matches Ok(info) ==> info == (DeviceInfo {
                device_id,
                generation: self.local.metadata.device_heads@[device_id.0].generation,
                spec: self.local.metadata.device_specs@[device_id.0],
                latest_commit: self.local.metadata.device_heads@[device_id.0].latest_commit,
            }),
            result matches Err(error) ==> error == (StorageError::NotFound {
                kind: "device",
                id: device_id.0,
            }),
    {
        self.local.device_info(device_id)
    }

    /// The segments of the primary storage node.
    pub fn segment_store(&self) -> (store: SegmentStoreView<'_>)
        requires
            self.wf(),
        ensures
            *store.registry == self.local.storage_nodes,
            store.storage_node == self.local.storage_nodes.node_ids@[0],
    {
        self.local.segment_store()
    }

    /// What the primary storage node knows of its segments.
    pub fn segment_catalog(&self) -> (catalog: SegmentCatalogView<'_>)
        requires
            self.wf(),
        ensures
            *catalog.registry == self.local.storage_nodes,
            catalog.storage_node == self.local.storage_nodes.node_ids@[0],
    {
        self.local.segment_catalog()
    }

    /// Fills `buf` with the bytes of a range of a device.
    pub fn read_device(&self, device_id: DeviceId, range: ByteRange, buf: &mut [u8]) -> (result:
        Result<(), StorageError>)
        requires
            self.wf(),
        ensures
            final(buf)@.len() == old(buf)@.len(),
            result is Err ==> final(buf)@ == old(buf)@,
            result is Ok ==> self.local.metadata.has_device(device_id) && range.fits_device(
                self.local.metadata.device_specs@[device_id.0],
            ) && range.len == old(buf)@.len(),
            result is Ok ==> forall|i: int|
                0 <= i < range.len ==> #[trigger] final(buf)@[i] == self.local.device_byte(
                    device_id,
                    range.offset + i,
                ),
            self.local.takes_device_read(device_id, range, old(buf)@.len() as int) && (
            self.local.serves_device_read(device_id, range, ReadVerification::Default)
                || self.local.store_is_whole(ReadVerification::Default) || self.local.maps_nothing(
                device_id,
                range,
            )) ==> result is Ok,
            result is Ok ==> self.local.serves_device_read(device_id, range, ReadVerification::Default),
            !self.local.metadata.has_device(device_id) ==> (result matches Err(error)
                && error is NotFound),
            self.local.metadata.has_device(device_id) && !range.fits_device(
                self.local.metadata.device_specs@[device_id.0],
            ) ==> (result matches Err(error) && error is InvalidArgument),
            self.local.metadata.has_device(device_id) && range.len != old(buf)@.len() ==> (
            result matches Err(error) && error is InvalidArgument),
    {
        self.local.read_device(device_id, range, buf)
    }

    pub fn read_device_with_verification(
        &self,
        device_id: DeviceId,
        range: ByteRange,
        buf: &mut [u8],
        verification: ReadVerification,
    ) -> (result: Result<(), StorageError>)
        requires
            self.wf(),
        ensures
            final(buf)@.len() == old(buf)@.len(),
            result is Err ==> final(buf)@ == old(buf)@,
            result is Ok ==> self.local.metadata.has_device(device_id) && range.fits_device(
                self.local.metadata.device_specs@[device_id.0],
            ) && range.len == old(buf)@.len(),
            result is Ok ==> forall|i: int|
                0 <= i < range.len ==> #[trigger] final(buf)@[i] == self.local.device_byte(
                    device_id,
                    range.offset + i,
                ),
            self.local.takes_device_read(device_id, range, old(buf)@.len() as int) && (
            self.local.serves_device_read(device_id, range, verification) || self.local.store_is_whole(
                verification,
            ) || self.local.maps_nothing(device_id, range)) ==> result is Ok,
            result is Ok ==> self.local.serves_device_read(device_id, range, ReadVerification::Default),
            !self.local.metadata.has_device(device_id) ==> (result matches Err(error)
                && error is NotFound),
            self.local.metadata.has_device(device_id) && !range.fits_device(
                self.local.metadata.device_specs@[device_id.0],
            ) ==> (result matches Err(error) && error is InvalidArgument),
            self.local.metadata.has_device(device_id) && range.len != old(buf)@.len() ==> (
            result matches Err(error) && error is InvalidArgument),
    {
        self.local.read_device_with_verification(device_id, range, buf, verification)
    }

    /// Fills `buf` with the bytes of a range of a file.
    pub fn read_file(
        &self,
        keyspace_id: KeyspaceId,
        file_id: FileId,
        range: ByteRange,
        buf: &mut [u8],
    ) -> (result: Result<(), StorageError>)
        requires
            self.wf(),
        ensures
            final(buf)@.len() == old(buf)@.len(),
            result is Err ==> final(buf)@ == old(buf)@,
            result is Ok ==> self.local.metadata.has_file(keyspace_id, file_id) && range.end()
                <= self.local.file_size(keyspace_id, file_id) && range.len == old(buf)@.len(),
            result is Ok ==> forall|i: int|
                0 <= i < range.len ==> #[trigger] final(buf)@[i] == self.local.file_byte(
                    keyspace_id,
                    file_id,
                    range.offset + i,
                ),
            self.local.takes_file_read(keyspace_id, file_id, range, old(buf)@.len() as int) && (
            range.len == 0 || self.local.serves_file_read(
                keyspace_id,
                file_id,
                range,
                ReadVerification::Default,
            ) || self.local.store_is_whole(ReadVerification::Default)) ==> result is Ok,
            !self.local.metadata.has_file(keyspace_id, file_id) ==> (result matches Err(error)
                && error is NotFound),
            self.local.metadata.has_file(keyspace_id, file_id) && range.end() > self.local.file_size(
                keyspace_id,
                file_id,
            ) ==> (result matches Err(error) && error is InvalidArgument),
            self.local.metadata.has_file(keyspace_id, file_id) && range.len != old(buf)@.len() ==> (
            result matches Err(error) && error is InvalidArgument),
    {
        self.local.read_file(keyspace_id, file_id, range, buf)
    }

    pub fn read_file_with_verification(
        &self,
        keyspace_id: KeyspaceId,
        file_id: FileId,
        range: ByteRange,
        buf: &mut [u8],
        verification: ReadVerification,
    ) -> (result: Result<(), StorageError>)
        requires
            self.wf(),
        ensures
            final(buf)@.len() == old(buf)@.len(),
            result is Err ==> final(buf)@ == old(buf)@,
            result is Ok ==> self.local.metadata.has_file(keyspace_id, file_id) && range.end()
                <= self.local.file_size(keyspace_id, file_id) && range.len == old(buf)@.len(),
            result is Ok ==> forall|i: int|
                0 <= i < range.len ==> #[trigger] final(buf)@[i] == self.local.file_byte(
                    keyspace_id,
                    file_id,
                    range.offset + i,
                ),
            self.local.takes_file_read(keyspace_id, file_id, range, old(buf)@.len() as int) && (
            range.len == 0 || self.local.serves_file_read(keyspace_id, file_id, range, verification) || (
            self.local.store_is_whole(verification) && (verification == ReadVerification::RequireVerified
                ==> self.local.file_has_no_runs(keyspace_id, file_id, range)))) ==> result is Ok,
            !self.local.metadata.has_file(keyspace_id, file_id) ==> (result matches Err(error)
                && error is NotFound),
            self.local.metadata.has_file(keyspace_id, file_id) && range.end() > self.local.file_size(
                keyspace_id,
                file_id,
            ) ==> (result matches Err(error) && error is InvalidArgument),
            self.local.metadata.has_file(keyspace_id, file_id) && range.len != old(buf)@.len() ==> (
            result matches Err(error) && error is InvalidArgument),
    {
        self.local.read_file_with_verification(keyspace_id, file_id, range, buf, verification)
    }
}

} // verus!
