//! The coordinator: one store's metadata, storage nodes and run logs, and the
//! requests that work on them.
use vstd::prelude::*;

use crate::block_api::{BlockRange, ByteRange, DeviceInfo, DeviceSpec, ReadVerification};
use crate::config::{LocalStoreConfig, normalize_storage_nodes, normalized};
use crate::device_trees::{device_block_at, has_shard_at, shard_covers};
use crate::error::StorageError;
use crate::id::{
    BlockCount, BlockIndex, CommitSeq, DeviceGeneration, DeviceId, SegmentId, StorageNodeId,
    WriteIntentId, WriterEpoch,
};
use crate::idmap::IdMap;
use crate::integrity::StorageNodeReadService;
use crate::leaf::SegmentBlock;
use crate::metadata::{
    AppendPublishInFlight, AppendPublishTicketRecord, LiveAppendStream, MetadataInner,
    lemma_catalog_kept, streams_wf,
};
use crate::metadata_devices::{holds_nothing, shard_count_of, spec_valid};
use crate::metadata_records::{
    Checkpoint, DeviceHead, KeyspaceHead, MetadataNode, SegmentPayloadIntegrity,
};
use crate::observability::{NativeFileBatchCommitProfile, Observability, ReadProfile, RingLog};
use crate::read_plan::{RunLogMap, node_runs_backed, tree_runs_backed};
use crate::run_logs::{AppendRunLogs, answers_log_read, keeps_logs};
use crate::storage_nodes::{SegmentRecord, StorageNodeRegistry, keeps_segments};
use crate::tree::{keeps_nodes, node_backed, tree_backed};
use crate::tree_build::holds_no_entries;

verus! {

/// The right to write to a device, until the next one is given.
#[derive(Clone, Copy, PartialEq, Eq, Structural, Debug)]
pub struct BlockWriterLease {
    pub device_id: DeviceId,
    pub writer_epoch: WriterEpoch,
}

pub struct LocalCoordinator {
    pub config: LocalStoreConfig,
    pub metadata: MetadataInner,
    pub storage_nodes: StorageNodeRegistry,
    pub append_run_logs: AppendRunLogs,
    pub append_stream_storage_lanes: IdMap<StorageNodeId>,
    pub next_write_intent: u128,
    pub next_extent_id: u128,
    pub observability: Observability,
    pub read_profiler: Option<RingLog<ReadProfile>>,
    pub native_file_batch_profiler: Option<RingLog<NativeFileBatchCommitProfile>>,
    pub block_writer_epochs: IdMap<WriterEpoch>,
}

/// The byte that a segment block holds for a byte of a device or a file; where
/// nothing was written there is a zero.
pub open spec fn segment_byte(
    segments: Map<u128, SegmentRecord>,
    block: Option<SegmentBlock>,
    block_size: u64,
    byte: int,
) -> u8 {
    match block {
        None => 0,
        Some(held) => segments[held.segment_id.0].bytes@[held.offset * block_size + byte
            % block_size as int],
    }
}

/// Whether every segment is made of whole blocks.
pub open spec fn whole_blocks(segments: Map<u128, SegmentRecord>, block_size: u64) -> bool {
    forall|id: u128| #[trigger]
        segments.contains_key(id) ==> segments[id].bytes@.len() as int % block_size as int == 0
}

/// Whether every segment has a checksum.
pub open spec fn all_checked(segments: Map<u128, SegmentRecord>) -> bool {
    forall|id: u128| #[trigger]
        segments.contains_key(id) ==> (segments[id].entry.receipt matches Some(receipt)
            ==> receipt.integrity is Crc32c)
}

impl StorageNodeReadService for LocalCoordinator {
    open spec fn stored_byte(
        &self,
        storage_node: StorageNodeId,
        segment_id: SegmentId,
        offset: int,
    ) -> u8 {
        self.segments()[segment_id.0].bytes@[offset]
    }

    open spec fn logged_byte(&self, storage_node: StorageNodeId, log_id: u64, offset: int) -> u8 {
        self.logs()[(storage_node, log_id)][offset]
    }

    open spec fn serves_segment(
        &self,
        storage_node: StorageNodeId,
        segment_id: SegmentId,
        range: ByteRange,
        integrity: SegmentPayloadIntegrity,
        verification: ReadVerification,
    ) -> bool {
        self.storage_nodes.answers_read(storage_node, segment_id, range, integrity, verification)
    }

    open spec fn serves_log(
        &self,
        storage_node: StorageNodeId,
        log_id: u64,
        range: ByteRange,
        integrity: SegmentPayloadIntegrity,
        verification: ReadVerification,
    ) -> bool {
        answers_log_read(self.logs(), storage_node, log_id, range, integrity, verification)
    }

    fn read_segment_source(
        &self,
        storage_node: StorageNodeId,
        segment_id: SegmentId,
        range: ByteRange,
        integrity: SegmentPayloadIntegrity,
        verification: ReadVerification,
        buf: &mut [u8],
    ) -> (result: Result<(), StorageError>) {
        self.storage_nodes.read_segment_from_node(
            storage_node,
            segment_id,
            range,
            integrity,
            verification,
            buf,
        )
    }

    fn read_append_run_source(
        &self,
        storage_node: StorageNodeId,
        log_id: u64,
        range: ByteRange,
        integrity: SegmentPayloadIntegrity,
        verification: ReadVerification,
        buf: &mut [u8],
    ) -> (result: Result<(), StorageError>) {
        self.append_run_logs.read(storage_node, log_id, range, integrity, verification, buf)
    }
}

impl LocalCoordinator {
    pub open spec fn block_size(&self) -> u64 {
        self.config.block_size as u64
    }

    pub open spec fn nodes(&self) -> Map<u128, MetadataNode> {
        self.metadata.nodes()
    }

    pub open spec fn segments(&self) -> Map<u128, SegmentRecord> {
        self.storage_nodes.segments@
    }

    pub open spec fn logs(&self) -> RunLogMap {
        self.append_run_logs@
    }

    pub open spec fn wf(&self) -> bool {
        &&& self.config.valid()
        &&& self.metadata.devices_wf(self.block_size())
        &&& self.metadata.files_wf(self.block_size())
        &&& self.storage_nodes.wf(self.block_size())
        &&& tree_backed(self.nodes(), self.segments())
        &&& tree_runs_backed(self.nodes(), self.logs())
        &&& streams_wf(
            self.logs(),
            self.metadata.append_streams@,
            self.metadata.next_append_stream_id,
        )
        &&& self.observability.wf()
        &&& self.read_profiler matches Some(profiler) ==> profiler.wf()
        &&& self.native_file_batch_profiler matches Some(profiler) ==> profiler.wf()
    }

    /// The byte that a device has at a place.
    pub open spec fn device_byte(&self, device_id: DeviceId, byte: int) -> u8 {
        segment_byte(
            self.segments(),
            device_block_at(
                self.nodes(),
                self.metadata.roots_of(device_id),
                byte / self.block_size() as int,
            ),
            self.block_size(),
            byte,
        )
    }

    pub open spec fn device_bytes(&self, device_id: DeviceId) -> int {
        self.metadata.blocks_of(device_id) * self.block_size()
    }

    /// Whether nothing that was stored has been lost.
    pub open spec fn keeps_store(&self, before: &LocalCoordinator) -> bool {
        &&& self.config == before.config
        &&& keeps_nodes(before.nodes(), self.nodes())
        &&& keeps_segments(before.segments(), self.segments())
        &&& keeps_logs(before.logs(), self.logs())
    }

    /// Whether a device is as it was.
    pub open spec fn device_kept(&self, before: &LocalCoordinator, device_id: DeviceId) -> bool {
        &&& before.metadata.has_device(device_id) ==> self.metadata.has_device(device_id)
            && self.metadata.device_heads@[device_id.0]
            == before.metadata.device_heads@[device_id.0]
            && self.metadata.device_specs@[device_id.0]
            == before.metadata.device_specs@[device_id.0]
    }

    /// Whether every device but one is as it was.
    pub open spec fn other_devices_kept(
        &self,
        before: &LocalCoordinator,
        device_id: DeviceId,
    ) -> bool {
        forall|other: DeviceId|
            other != device_id ==> #[trigger] self.device_kept(before, other)
    }

    /// Whether the numbers that a request uses up last for one more request,
    /// and the storage nodes have room for some bytes. A request uses no more
    /// identifiers of nodes, segments and catalog shards than there can be of
    /// them.
    pub open spec fn room_for(&self, bytes: int) -> bool {
        &&& self.metadata.publish_room()
        &&& self.metadata.next_device_id + 1 < u128::MAX
        &&& self.metadata.next_keyspace_id + 1 < u128::MAX
        &&& self.metadata.next_file_id + 1 < u128::MAX
        &&& self.storage_nodes.next_segment_id + usize::MAX < u128::MAX
        &&& self.next_write_intent + usize::MAX < u128::MAX
        &&& self.storage_nodes.next_offset + bytes <= u64::MAX
    }

    /// Whether no number has moved further than one request moves it, and the
    /// storage nodes have taken no more than some bytes.
    pub open spec fn moved_within(&self, before: &LocalCoordinator, bytes: int) -> bool {
        &&& self.metadata.trees.next_metadata_node_id
            <= before.metadata.trees.next_metadata_node_id + usize::MAX
        &&& self.metadata.next_commit_seq <= before.metadata.next_commit_seq + 1
        &&& self.metadata.next_commit_group_id <= before.metadata.next_commit_group_id + 1
        &&& self.metadata.next_device_id <= before.metadata.next_device_id + 1
        &&& self.metadata.next_keyspace_id <= before.metadata.next_keyspace_id + 1
        &&& self.metadata.next_file_id <= before.metadata.next_file_id + 1
        &&& self.metadata.next_keyspace_catalog_shard_id
            <= before.metadata.next_keyspace_catalog_shard_id + usize::MAX
        &&& self.storage_nodes.next_segment_id <= before.storage_nodes.next_segment_id
            + usize::MAX
        &&& self.next_write_intent <= before.next_write_intent + usize::MAX
        &&& self.storage_nodes.next_offset <= before.storage_nodes.next_offset + bytes
    }

    /// A store that has served no request yet.
    pub open spec fn fresh(&self) -> bool {
        &&& self.wf()
        &&& self.metadata.device_specs@ == Map::<u128, DeviceSpec>::empty()
        &&& self.metadata.device_heads@ == Map::<u128, DeviceHead>::empty()
        &&& self.metadata.deleted_device_heads@ == Map::<u128, DeviceHead>::empty()
        &&& self.metadata.keyspace_heads@ == Map::<u128, KeyspaceHead>::empty()
        &&& self.metadata.append_streams@ == Map::<u128, LiveAppendStream>::empty()
        &&& self.metadata.append_publish_in_flight@ == Map::<u128, AppendPublishInFlight>::empty()
        &&& self.metadata.append_publish_tickets@ == Map::<
            u128,
            AppendPublishTicketRecord,
        >::empty()
        &&& self.metadata.file_writer_epochs@.len() == 0
        &&& self.metadata.shard_commits@.len() == 0
        &&& self.metadata.keyspace_commits@.len() == 0
        &&& self.metadata.file_commits@.len() == 0
        &&& self.metadata.checkpoints@ == Map::<u128, Checkpoint>::empty()
        &&& self.nodes() == Map::<u128, MetadataNode>::empty()
        &&& self.segments() == Map::<u128, SegmentRecord>::empty()
        &&& self.logs() == RunLogMap::empty()
        &&& self.metadata.trees.next_metadata_node_id == 1
        &&& self.metadata.next_device_id == 1
        &&& self.metadata.next_keyspace_id == 1
        &&& self.metadata.next_file_id == 1
        &&& self.metadata.next_keyspace_root_id == 1
        &&& self.metadata.next_keyspace_catalog_shard_id == 1
        &&& self.metadata.next_commit_group_id == 1
        &&& self.metadata.next_checkpoint_id == 1
        &&& self.metadata.next_append_stream_id == 1
        &&& self.metadata.next_append_ticket_id == 1
        &&& self.metadata.next_append_publish_ticket_id == 1
        &&& self.metadata.next_commit_seq == 1
        &&& self.metadata.next_gc_epoch == 1
        &&& self.metadata.history_floor == 0
        &&& self.storage_nodes.next_segment_id == 1
        &&& self.storage_nodes.next_placement_index == 0
        &&& self.storage_nodes.next_offset == 0
        &&& self.next_write_intent == 1
        &&& self.next_extent_id == 1
        &&& self.append_stream_storage_lanes@ == Map::<u128, StorageNodeId>::empty()
        &&& self.block_writer_epochs@ == Map::<u128, WriterEpoch>::empty()
        &&& self.read_profiler is None
        &&& self.native_file_batch_profiler is None
        &&& self.observability.events.items@.len() == 0
        &&& whole_blocks(self.segments(), self.block_size())
        &&& self.room_for(u64::MAX as int)
    }

    pub fn new() -> (coordinator: LocalCoordinator)
        ensures
            coordinator.fresh(),
            coordinator.config == crate::config::default_config(),
            coordinator.storage_nodes.node_ids@ == seq![coordinator.config.storage_node],
    {
        let config = LocalStoreConfig::default();
        proof {
            crate::config::law_default_config_is_valid();
        }
        LocalCoordinator::with_config(config).unwrap()
    }

    /// An empty store with one storage node.
    pub fn with_config(config: LocalStoreConfig) -> (result: Result<LocalCoordinator, StorageError>)
        ensures
            result is Ok <==> config.valid(),
            result matches Ok(coordinator) ==> coordinator.fresh() && coordinator.config == config
                && coordinator.storage_nodes.node_ids@ == seq![config.storage_node],
            result matches Err(error) ==> error == (StorageError::InvalidArgument {
                message: config.fault(),
            }),
    {
        let mut storage_nodes: Vec<StorageNodeId> = Vec::new();
        storage_nodes.push(config.storage_node);
        proof {
            let asked = storage_nodes@;
            reveal_with_fuel(normalized, 2);
            assert(asked.drop_last() =~= Seq::<StorageNodeId>::empty());
            assert(seq![config.storage_node][0] == config.storage_node);
            assert(normalized(config.storage_node, asked) =~= seq![config.storage_node]);
        }
        LocalCoordinator::with_storage_nodes(config, storage_nodes)
    }

    /// An empty store; the configured storage node is always one of its nodes.
    pub fn with_storage_nodes(
        config: LocalStoreConfig,
        storage_nodes: Vec<StorageNodeId>,
    ) -> (result: Result<LocalCoordinator, StorageError>)
        ensures
            result is Ok <==> config.valid(),
            result matches Ok(coordinator) ==> coordinator.fresh() && coordinator.config == config
                && coordinator.storage_nodes.node_ids@ == normalized(
                config.storage_node,
                storage_nodes@,
            ),
            result matches Err(error) ==> error == (StorageError::InvalidArgument {
                message: config.fault(),
            }),
    {
        match config.validate() {
            Ok(()) => {},
            Err(error) => return Err(error),
        }
        let observability = match Observability::new(config.observability_event_capacity) {
            Ok(observability) => observability,
            Err(error) => {
                assert(false);
                return Err(error);
            },
        };
        let nodes = normalize_storage_nodes(config.storage_node, &storage_nodes);
        let registry = match StorageNodeRegistry::new(nodes) {
            Ok(registry) => registry,
            Err(error) => {
                assert(false);
                return Err(error);
            },
        };
        let metadata = MetadataInner::new();
        let coordinator = LocalCoordinator {
            config,
            metadata,
            storage_nodes: registry,
            append_run_logs: AppendRunLogs::new(),
            append_stream_storage_lanes: IdMap::new(),
            next_write_intent: 1,
            next_extent_id: 1,
            observability,
            read_profiler: None,
            native_file_batch_profiler: None,
            block_writer_epochs: IdMap::new(),
        };
        proof {
            assert(config.block_size > 0);
            assert(metadata.devices_wf(config.block_size as u64));
            assert(metadata.files_wf(config.block_size as u64));
        }
        Ok(coordinator)
    }

    pub fn config(&self) -> (config: LocalStoreConfig)
        ensures
            config == self.config,
    {
        self.config
    }

    pub fn metadata(&self) -> (metadata: &MetadataInner)
        ensures
            *metadata == self.metadata,
    {
        &self.metadata
    }

    /// Takes the next number of a write intent.
    pub(crate) fn take_write_intent(&mut self) -> (result: Result<WriteIntentId, StorageError>)
        ensures
            result is Ok <==> old(self).next_write_intent < u128::MAX,
            result matches Ok(id) ==> id.0 == old(self).next_write_intent
                && final(self).next_write_intent == id.0 + 1,
            *final(self) == (LocalCoordinator {
                next_write_intent: final(self).next_write_intent,
                ..*old(self)
            }),
            result matches Err(error) ==> error is Conflict && *final(self) == *old(self),
    {
        if self.next_write_intent == u128::MAX {
            return Err(StorageError::conflict("write intent id overflow"));
        }
        let id = WriteIntentId(self.next_write_intent);
        self.next_write_intent = self.next_write_intent + 1;
        Ok(id)
    }

    pub fn device_info(&self, device_id: DeviceId) -> (result: Result<DeviceInfo, StorageError>)
        requires
            self.wf(),
        ensures
            result is Ok <==> self.metadata.has_device(device_id),
            result matches Ok(info) ==> info == (DeviceInfo {
                device_id,
                generation: self.metadata.device_heads@[device_id.0].generation,
                spec: self.metadata.device_specs@[device_id.0],
                latest_commit: self.metadata.device_heads@[device_id.0].latest_commit,
            }),
            result matches Err(error) ==> error == (StorageError::NotFound {
                kind: "device",
                id: device_id.0,
            }),
    {
        proof {
            if self.metadata.has_device(device_id) {
                assert(self.metadata.device_heads@.contains_key(device_id.0));
            }
        }
        self.metadata.device_info(device_id)
    }

    /// Creates a device; every byte of it is zero.
    pub fn create_device(&mut self, spec: DeviceSpec) -> (result: Result<DeviceId, StorageError>)
        requires
            old(self).wf(),
        ensures
            final(self).wf(),
            final(self).keeps_store(old(self)),
            *final(self) == (LocalCoordinator { metadata: final(self).metadata, ..*old(self) }),
            final(self).metadata.same_outside_devices(&old(self).metadata),
            final(self).moved_within(old(self), 0),
            result matches Ok(device_id) ==> {
                &&& spec_valid(spec, old(self).config)
                &&& device_id.0 == old(self).metadata.next_device_id
                &&& final(self).metadata.device_heads@[device_id.0].generation == DeviceGeneration(
                    1,
                )
                &&& final(self).metadata.device_heads@[device_id.0].latest_commit == CommitSeq(0)
                &&& final(self).metadata.device_heads@.remove(device_id.0) == old(
                    self,
                ).metadata.device_heads@
                &&& !old(self).metadata.has_device(device_id)
                &&& final(self).metadata.has_device(device_id)
                &&& final(self).metadata.device_specs@[device_id.0] == spec
                &&& final(self).other_devices_kept(old(self), device_id)
                &&& final(self).metadata.roots_of(device_id).len() == shard_count_of(
                    spec,
                    old(self).config,
                )
                &&& final(self).metadata.roots_of(device_id).len() == 1 ==> final(self).nodes()[final(self).metadata.roots_of(device_id)[0].0].covered_range == (
                BlockRange {
                    start: BlockIndex(0),
                    blocks: BlockCount(spec.logical_blocks),
                })
                &&& holds_nothing(
                    final(self).nodes(),
                    final(self).metadata.roots_of(device_id),
                    spec.logical_blocks as int,
                )
                &&& forall|range: ByteRange|
                    range.fits_device(spec) ==> #[trigger] final(self).maps_nothing(
                        device_id,
                        range,
                    )
                &&& forall|byte: int|
                    0 <= byte < final(self).device_bytes(device_id) ==> (#[trigger] final(self).device_byte(
                        device_id,
                        byte,
                    )) == 0
            },
            result is Ok || !spec_valid(spec, old(self).config) || !old(self).room_for(0),
            result is Err ==> final(self).metadata.device_heads == old(self).metadata.device_heads,
            !spec_valid(spec, old(self).config) ==> (result matches Err(error)
                && error is InvalidArgument),
    {
        let ghost before = *self;
        let result = self.metadata.create_device(self.config, spec);
        proof {
            let bs = self.block_size();
            self.metadata.trees.lemma_few_new(&before.metadata.trees);
            lemma_catalog_kept(
                before.nodes(),
                self.nodes(),
                self.metadata.keyspace_catalog_shards@,
                bs,
                self.metadata.next_file_id,
                self.metadata.next_keyspace_catalog_shard_id,
            );
            assert forall|id: u128| #[trigger] self.nodes().contains_key(id) implies node_backed(
                self.nodes()[id],
                self.segments(),
            ) by {
                if before.nodes().contains_key(id) {
                    assert(node_backed(before.nodes()[id], before.segments()));
                } else {
                    assert(holds_no_entries(self.nodes()[id]));
                }
            }
            assert forall|id: u128| #[trigger] self.nodes().contains_key(
                id,
            ) implies node_runs_backed(self.nodes()[id], self.logs()) by {
                if before.nodes().contains_key(id) {
                    assert(node_runs_backed(before.nodes()[id], before.logs()));
                } else {
                    assert(holds_no_entries(self.nodes()[id]));
                }
            }
            if let Ok(device_id) = result {
                assert(!before.metadata.device_heads@.contains_key(device_id.0));
                let roots = self.metadata.roots_of(device_id);
                assert forall|range: ByteRange|
                    range.fits_device(spec) implies #[trigger] self.maps_nothing(
                    device_id,
                    range,
                ) by {
                    assert forall|byte: int| #[trigger] range.contains(
                        byte,
                    ) implies device_block_at(self.nodes(), roots, byte / bs as int) is None by {
                        lemma_block_of_byte(byte, self.metadata.blocks_of(device_id), bs);
                    }
                }
                if roots.len() == 1 {
                    assert(self.metadata.device_heads@.contains_key(device_id.0));
                    let last = spec.logical_blocks - 1;
                    assert(has_shard_at(self.nodes(), roots, 0));
                    assert(has_shard_at(self.nodes(), roots, last));
                    let s = choose|s: int|
                        0 <= s < roots.len() && #[trigger] shard_covers(self.nodes(), roots, s, 0);
                    let t = choose|t: int|
                        0 <= t < roots.len() && #[trigger] shard_covers(
                            self.nodes(),
                            roots,
                            t,
                            last,
                        );
                    assert(s == 0 && t == 0);
                }
                assert forall|byte: int|
                    0 <= byte < self.device_bytes(device_id) implies #[trigger] self.device_byte(
                    device_id,
                    byte,
                ) == 0 by {
                    lemma_block_of_byte(byte, self.metadata.blocks_of(device_id), bs);
                    assert(holds_nothing(
                        self.nodes(),
                        self.metadata.roots_of(device_id),
                        self.metadata.blocks_of(device_id),
                    ));
                }
                assert forall|other: DeviceId| other != device_id implies #[trigger]
                    self.device_kept(&before, other) by {
                    if before.metadata.has_device(other) {
                        assert(before.metadata.device_heads@.contains_key(other.0));
                        assert(self.metadata.device_heads@.remove(device_id.0)[other.0]
                            == before.metadata.device_heads@[other.0]);
                    }
                }
            }
        }
        result
    }
}

/// A byte below the end lies in a block below the end.
pub proof fn lemma_block_of_byte(byte: int, blocks: int, block_size: u64)
    requires
        block_size > 0,
        0 <= byte < blocks * block_size,
    ensures
        0 <= byte / block_size as int,
        byte / (block_size as int) < blocks,
{
    let b = block_size as int;
    assert(0 <= byte / b && byte / b < blocks) by (nonlinear_arith)
        requires
            b > 0,
            0 <= byte < blocks * b,
    ;
}

} // verus!
