//! What the metadata plane holds: the heads of devices and keyspaces, their
//! trees and their history.
use vstd::prelude::*;

use crate::block_api::{DeviceInfo, DeviceSpec};
use crate::device_trees::shards_wf;
use crate::error::StorageError;
use crate::id::{
    AppendPublishTicketId, AppendStreamId, CommitSeq, DeviceId, FileId, KeyspaceCatalogShardId,
    KeyspaceId, MetadataNodeId, WriterEpoch,
};
use crate::idmap::IdMap;
use crate::metadata_records::{
    AppendStreamRunRecord, AppendStreamState, AppendStreamStatus, Checkpoint, CheckpointRoots,
    CommitGroup, DeleteRecord, DeviceHead, FileCommit, ForkRecord, KeyspaceCommit, KeyspaceFile,
    KeyspaceHead, KeyspaceRoot, MappingOwner, MetadataNode, ShardCommit,
};
use crate::native_api::{AppendPublishCommit, AppendPublishTicket, AppendStream};
use crate::read_plan::{RunLogMap, log_part_backed};
use crate::run_logs::{keeps_logs, lemma_part_kept};
use crate::tree::{TreeStore, keeps_nodes};

verus! {

/// The files of one shard of a keyspace's catalog, by file id.
pub struct KeyspaceCatalogShard {
    pub shard_id: KeyspaceCatalogShardId,
    pub files: IdMap<KeyspaceFile>,
}

/// The writer epoch of a file.
#[derive(Clone, Copy, PartialEq, Eq, Structural, Debug)]
pub struct FileWriterEpoch {
    pub keyspace_id: KeyspaceId,
    pub file_id: FileId,
    pub writer_epoch: WriterEpoch,
}

/// An append stream with what is known of it only while the process runs.
pub struct LiveAppendStream {
    pub state: AppendStreamState,
    pub accepted_tail: u64,
    pub base_writer_epoch: WriterEpoch,
}

/// A publish whose metadata is prepared and not yet applied.
#[derive(Clone, Copy, PartialEq, Eq, Structural, Debug)]
pub struct AppendPublishInFlight {
    pub ticket_id: AppendPublishTicketId,
    pub stream_id: AppendStreamId,
    pub commit_seq: CommitSeq,
    pub writer_epoch: WriterEpoch,
    pub keyspace_id: KeyspaceId,
    pub file_id: FileId,
    pub publish_through: u64,
    pub old_root: MetadataNodeId,
    pub old_size: u64,
}

/// A publish ticket and, once it is there, the publish's outcome.
#[derive(Clone, Copy, PartialEq, Eq, Structural, Debug)]
pub struct AppendPublishTicketRecord {
    pub ticket: AppendPublishTicket,
    pub stream: AppendStream,
    pub completed: Option<AppendPublishCommit>,
}

pub struct MetadataInner {
    pub device_specs: IdMap<DeviceSpec>,
    pub device_heads: IdMap<DeviceHead>,
    pub deleted_device_heads: IdMap<DeviceHead>,
    pub keyspace_heads: IdMap<KeyspaceHead>,
    pub keyspace_roots: IdMap<KeyspaceRoot>,
    /// The commit that made each keyspace that was restored from another.
    pub keyspace_births: IdMap<CommitSeq>,
    pub keyspace_catalog_shards: IdMap<KeyspaceCatalogShard>,
    pub file_writer_epochs: Vec<FileWriterEpoch>,
    pub append_streams: IdMap<LiveAppendStream>,
    pub append_publish_in_flight: IdMap<AppendPublishInFlight>,
    pub append_publish_tickets: IdMap<AppendPublishTicketRecord>,
    pub trees: TreeStore,
    pub commit_groups: IdMap<CommitGroup>,
    pub shard_commits: Vec<ShardCommit>,
    pub keyspace_commits: Vec<KeyspaceCommit>,
    pub file_commits: Vec<FileCommit>,
    pub fork_records: IdMap<ForkRecord>,
    pub delete_records: IdMap<DeleteRecord>,
    pub checkpoints: IdMap<Checkpoint>,
    pub metadata_last_mark_epoch: IdMap<u64>,
    pub segment_last_mark_epoch: IdMap<u64>,
    pub next_device_id: u128,
    pub next_keyspace_id: u128,
    pub next_file_id: u128,
    pub next_keyspace_root_id: u128,
    pub next_keyspace_catalog_shard_id: u128,
    pub next_commit_group_id: u128,
    pub next_checkpoint_id: u128,
    pub next_append_stream_id: u128,
    pub next_append_ticket_id: u128,
    pub next_append_publish_ticket_id: u128,
    pub next_commit_seq: u64,
    pub next_gc_epoch: u64,
    /// History before this commit is no longer kept.
    pub history_floor: u64,
}

/// Whether a device's head fits its specification and its trees.
pub open spec fn head_wf(
    nodes: Map<u128, MetadataNode>,
    specs: Map<u128, DeviceSpec>,
    head: DeviceHead,
    id: u128,
    block_size: u64,
) -> bool {
    &&& head.device_id.0 == id
    &&& specs.contains_key(id)
    &&& specs[id].block_size == block_size
    &&& specs[id].logical_blocks * block_size <= u64::MAX
    &&& head.shard_roots@.len() <= u32::MAX
    &&& shards_wf(nodes, head.shard_roots@, specs[id].logical_blocks as int)
}

pub open spec fn heads_wf(
    nodes: Map<u128, MetadataNode>,
    specs: Map<u128, DeviceSpec>,
    heads: Map<u128, DeviceHead>,
    block_size: u64,
    next_device_id: u128,
) -> bool {
    forall|id: u128| #[trigger]
        heads.contains_key(id) ==> id < next_device_id && head_wf(
            nodes,
            specs,
            heads[id],
            id,
            block_size,
        )
}

/// Whether a recorded root stands in the tree with the blocks that the shard's
/// current root covers.
pub open spec fn root_of_shard(
    nodes: Map<u128, MetadataNode>,
    roots: Seq<MetadataNodeId>,
    shard: int,
    root: MetadataNodeId,
) -> bool {
    &&& shard < roots.len()
    &&& nodes.contains_key(root.0)
    &&& nodes[root.0].covered_range == nodes[roots[shard].0].covered_range
}

pub open spec fn shard_commit_wf(
    nodes: Map<u128, MetadataNode>,
    heads: Map<u128, DeviceHead>,
    commit: ShardCommit,
) -> bool {
    heads.contains_key(commit.device_id.0) ==> {
        let roots = heads[commit.device_id.0].shard_roots@;
        &&& root_of_shard(nodes, roots, commit.shard_id.0 as int, commit.old_root)
        &&& root_of_shard(nodes, roots, commit.shard_id.0 as int, commit.new_root)
    }
}

/// Whether every recorded root of a device's history fits the device.
pub open spec fn history_wf(
    nodes: Map<u128, MetadataNode>,
    heads: Map<u128, DeviceHead>,
    commits: Seq<ShardCommit>,
) -> bool {
    forall|i: int| 0 <= i < commits.len() ==> shard_commit_wf(nodes, heads, #[trigger] commits[i])
}

pub open spec fn checkpoint_wf(
    nodes: Map<u128, MetadataNode>,
    specs: Map<u128, DeviceSpec>,
    checkpoint: Checkpoint,
    block_size: u64,
) -> bool {
    (checkpoint.roots matches CheckpointRoots::BlockShard(roots) ==> (
    checkpoint.owner matches MappingOwner::BlockDevice(device_id) ==> {
        &&& specs.contains_key(device_id.0)
        &&& specs[device_id.0].block_size == block_size
        &&& specs[device_id.0].logical_blocks * block_size <= u64::MAX
        &&& roots@.len() <= u32::MAX
        &&& shards_wf(nodes, roots@, specs[device_id.0].logical_blocks as int)
    }))
}

pub open spec fn checkpoints_wf(
    nodes: Map<u128, MetadataNode>,
    specs: Map<u128, DeviceSpec>,
    checkpoints: Map<u128, Checkpoint>,
    block_size: u64,
) -> bool {
    forall|id: u128| #[trigger]
        checkpoints.contains_key(id) ==> checkpoint_wf(nodes, specs, checkpoints[id], block_size)
}

/// New nodes leave a device's shards as they are.
pub proof fn lemma_shards_kept(
    before: Map<u128, MetadataNode>,
    after: Map<u128, MetadataNode>,
    roots: Seq<MetadataNodeId>,
    blocks: int,
)
    requires
        keeps_nodes(before, after),
        shards_wf(before, roots, blocks),
    ensures
        shards_wf(after, roots, blocks),
{
    assert forall|s: int| 0 <= s < roots.len() implies after.contains_key((#[trigger] roots[s]).0)
        && after[roots[s].0] == before[roots[s].0] by {
        assert(before.contains_key(roots[s].0));
    }
    assert forall|block: int| 0 <= block < blocks implies #[trigger]
    crate::device_trees::has_shard_at(after, roots, block) by {
        assert(crate::device_trees::has_shard_at(before, roots, block));
        let s = crate::device_trees::shard_at(before, roots, block);
        assert(crate::device_trees::shard_covers(before, roots, s, block));
        assert(after[roots[s].0] == before[roots[s].0]);
        assert(crate::device_trees::shard_covers(after, roots, s, block));
    }
}

/// New nodes leave heads, history and checkpoints well-formed.
pub proof fn lemma_devices_kept(
    before: Map<u128, MetadataNode>,
    after: Map<u128, MetadataNode>,
    specs: Map<u128, DeviceSpec>,
    heads: Map<u128, DeviceHead>,
    deleted: Map<u128, DeviceHead>,
    commits: Seq<ShardCommit>,
    checkpoints: Map<u128, Checkpoint>,
    block_size: u64,
    next_device_id: u128,
)
    requires
        keeps_nodes(before, after),
        heads_wf(before, specs, heads, block_size, next_device_id),
        history_wf(before, heads, commits),
        heads_wf(before, specs, deleted, block_size, next_device_id),
        history_wf(before, deleted, commits),
        checkpoints_wf(before, specs, checkpoints, block_size),
    ensures
        heads_wf(after, specs, heads, block_size, next_device_id),
        history_wf(after, heads, commits),
        heads_wf(after, specs, deleted, block_size, next_device_id),
        history_wf(after, deleted, commits),
        checkpoints_wf(after, specs, checkpoints, block_size),
{
    lemma_heads_kept(before, after, specs, heads, commits, block_size, next_device_id);
    lemma_heads_kept(before, after, specs, deleted, commits, block_size, next_device_id);
    assert forall|id: u128| #[trigger] checkpoints.contains_key(id) implies checkpoint_wf(
        after,
        specs,
        checkpoints[id],
        block_size,
    ) by {
        assert(checkpoint_wf(before, specs, checkpoints[id], block_size));
        if let CheckpointRoots::BlockShard(roots) = checkpoints[id].roots {
            if let MappingOwner::BlockDevice(device_id) = checkpoints[id].owner {
                lemma_shards_kept(
                    before,
                    after,
                    roots@,
                    specs[device_id.0].logical_blocks as int,
                );
            }
        }
    }
}

/// New nodes leave heads and history well-formed.
proof fn lemma_heads_kept(
    before: Map<u128, MetadataNode>,
    after: Map<u128, MetadataNode>,
    specs: Map<u128, DeviceSpec>,
    heads: Map<u128, DeviceHead>,
    commits: Seq<ShardCommit>,
    block_size: u64,
    next_device_id: u128,
)
    requires
        keeps_nodes(before, after),
        heads_wf(before, specs, heads, block_size, next_device_id),
        history_wf(before, heads, commits),
    ensures
        heads_wf(after, specs, heads, block_size, next_device_id),
        history_wf(after, heads, commits),
{
    assert forall|id: u128| #[trigger] heads.contains_key(id) implies id < next_device_id
        && head_wf(after, specs, heads[id], id, block_size) by {
        lemma_shards_kept(
            before,
            after,
            heads[id].shard_roots@,
            specs[id].logical_blocks as int,
        );
    }
    assert forall|i: int| 0 <= i < commits.len() implies shard_commit_wf(
        after,
        heads,
        #[trigger] commits[i],
    ) by {
        let commit = commits[i];
        assert(shard_commit_wf(before, heads, commit));
        if heads.contains_key(commit.device_id.0) {
            let roots = heads[commit.device_id.0].shard_roots@;
            let shard = commit.shard_id.0 as int;
            assert(head_wf(before, specs, heads[commit.device_id.0], commit.device_id.0, block_size));
            assert(before.contains_key(roots[shard].0));
            assert(before.contains_key(commit.old_root.0));
            assert(before.contains_key(commit.new_root.0));
        }
    }
}

/// Whether a file's head fits its tree.
pub open spec fn file_wf(
    nodes: Map<u128, MetadataNode>,
    file: KeyspaceFile,
    id: u128,
    block_size: u64,
    next_file_id: u128,
) -> bool {
    &&& file.head.file_id.0 == id
    &&& id < next_file_id
    &&& nodes.contains_key(file.head.root.0)
    &&& nodes[file.head.root.0].covered_range.start.0 == 0
    &&& file.head.size <= nodes[file.head.root.0].covered_range.end() * block_size
}

pub open spec fn catalog_shard_wf(
    nodes: Map<u128, MetadataNode>,
    shard: KeyspaceCatalogShard,
    block_size: u64,
    next_file_id: u128,
) -> bool {
    forall|id: u128| #[trigger]
        shard.files@.contains_key(id) ==> file_wf(
            nodes,
            shard.files@[id],
            id,
            block_size,
            next_file_id,
        )
}

/// Whether the catalog's shards are there.
pub open spec fn catalog_roots_wf(
    shards: Map<u128, KeyspaceCatalogShard>,
    roots: Seq<KeyspaceCatalogShardId>,
) -> bool {
    &&& 0 < roots.len() <= u32::MAX
    &&& forall|i: int| 0 <= i < roots.len() ==> shards.contains_key((#[trigger] roots[i]).0)
}

pub open spec fn catalog_wf(
    nodes: Map<u128, MetadataNode>,
    shards: Map<u128, KeyspaceCatalogShard>,
    block_size: u64,
    next_file_id: u128,
    next_shard_id: u128,
) -> bool {
    forall|id: u128| #[trigger]
        shards.contains_key(id) ==> id < next_shard_id && catalog_shard_wf(
            nodes,
            shards[id],
            block_size,
            next_file_id,
        )
}

/// New nodes leave the catalog well-formed.
pub proof fn lemma_catalog_kept(
    before: Map<u128, MetadataNode>,
    after: Map<u128, MetadataNode>,
    shards: Map<u128, KeyspaceCatalogShard>,
    block_size: u64,
    next_file_id: u128,
    next_shard_id: u128,
)
    requires
        keeps_nodes(before, after),
        catalog_wf(before, shards, block_size, next_file_id, next_shard_id),
    ensures
        catalog_wf(after, shards, block_size, next_file_id, next_shard_id),
{
    assert forall|id: u128| #[trigger] shards.contains_key(id) implies id < next_shard_id
        && catalog_shard_wf(after, shards[id], block_size, next_file_id) by {
        assert forall|file: u128| #[trigger] shards[id].files@.contains_key(file) implies file_wf(
            after,
            shards[id].files@[file],
            file,
            block_size,
            next_file_id,
        ) by {
            assert(file_wf(before, shards[id].files@[file], file, block_size, next_file_id));
            assert(before.contains_key(shards[id].files@[file].head.root.0));
        }
    }
}

/// Whether a record of a stream is in the run logs.
pub open spec fn stream_record_wf(logs: RunLogMap, record: AppendStreamRunRecord) -> bool {
    &&& record.len > 0
    &&& record.offset + record.len <= u64::MAX
    &&& record.run.file_offset_start == record.offset
    &&& record.run.payload_len == record.len
    &&& record.run.log_payload_offset + record.len <= u64::MAX
    &&& log_part_backed(
        logs,
        record.run.storage_node,
        record.run.log_id,
        record.run.log_payload_offset as int,
        record.len as int,
        record.run.integrity,
    )
}

/// Whether records follow one another without a gap.
pub open spec fn records_contiguous(
    records: Seq<AppendStreamRunRecord>,
    start: int,
    end: int,
) -> bool {
    &&& records.len() == 0 ==> start == end
    &&& records.len() > 0 ==> records[0].offset == start && records.last().offset
        + records.last().len == end
    &&& forall|i: int, j: int|
        0 <= i && j == i + 1 && j < records.len() ==> (#[trigger] records[i]).offset
            + records[i].len == (#[trigger] records[j]).offset
}

pub open spec fn stream_wf(logs: RunLogMap, stream: LiveAppendStream, id: u128) -> bool {
    let state = stream.state;
    &&& state.stream_id.0 == id
    &&& state.published_through <= stream.accepted_tail
    &&& state.visible_base_size <= state.published_through
    &&& state.reserved_tail == stream.accepted_tail
    &&& forall|i: int|
        0 <= i < state.records@.len() ==> (#[trigger] state.records@[i]).offset
            + state.records@[i].len <= u64::MAX
    &&& state.status == AppendStreamStatus::Active ==> forall|i: int|
        0 <= i < state.records@.len() ==> stream_record_wf(logs, #[trigger] state.records@[i])
    &&& records_contiguous(
        state.records@,
        state.published_through as int,
        stream.accepted_tail as int,
    )
}

pub open spec fn streams_wf(
    logs: RunLogMap,
    streams: Map<u128, LiveAppendStream>,
    next_stream_id: u128,
) -> bool {
    forall|id: u128| #[trigger]
        streams.contains_key(id) ==> id < next_stream_id && stream_wf(logs, streams[id], id)
}

/// Logs that grow leave the streams well-formed.
pub proof fn lemma_streams_kept(
    before: RunLogMap,
    after: RunLogMap,
    streams: Map<u128, LiveAppendStream>,
    next_stream_id: u128,
)
    requires
        keeps_logs(before, after),
        streams_wf(before, streams, next_stream_id),
    ensures
        streams_wf(after, streams, next_stream_id),
{
    assert forall|id: u128| #[trigger] streams.contains_key(id) implies id < next_stream_id
        && stream_wf(after, streams[id], id) by {
        let records = streams[id].state.records@;
        if streams[id].state.status == AppendStreamStatus::Active {
            assert forall|i: int| 0 <= i < records.len() implies stream_record_wf(
                after,
                #[trigger] records[i],
            ) by {
                assert(stream_record_wf(before, records[i]));
                lemma_part_kept(
                    before,
                    after,
                    records[i].run.storage_node,
                    records[i].run.log_id,
                    records[i].run.log_payload_offset as int,
                    records[i].len as int,
                    records[i].run.integrity,
                );
            }
        }
    }
}

impl MetadataInner {
    /// Whether the keyspace part is consistent.
    pub open spec fn files_wf(&self, block_size: u64) -> bool {
        &&& catalog_wf(
            self.nodes(),
            self.keyspace_catalog_shards@,
            block_size,
            self.next_file_id,
            self.next_keyspace_catalog_shard_id,
        )
        &&& forall|id: u128| #[trigger]
            self.keyspace_heads@.contains_key(id) ==> id < self.next_keyspace_id
                && self.keyspace_heads@[id].keyspace_id.0 == id && catalog_roots_wf(
                self.keyspace_catalog_shards@,
                self.keyspace_heads@[id].shard_roots@,
            )
        &&& forall|id: u128| #[trigger]
            self.keyspace_roots@.contains_key(id) ==> id < self.next_keyspace_root_id
                && catalog_roots_wf(
                self.keyspace_catalog_shards@,
                self.keyspace_roots@[id].shard_roots@,
            )
        &&& self.tickets_wf()
    }

    /// Whether every publish ticket is kept under its own number, and none has a
    /// number that is still to be given out.
    pub open spec fn tickets_wf(&self) -> bool {
        forall|id: u128| #[trigger]
            self.append_publish_tickets@.contains_key(id) ==> id
                < self.next_append_publish_ticket_id
                && self.append_publish_tickets@[id].ticket.ticket_id.0 == id
    }

    /// Whether every publish ticket that was served is as it was.
    pub open spec fn served_kept(&self, before: &MetadataInner) -> bool {
        forall|id: u128| #[trigger]
            before.append_publish_tickets@.contains_key(id)
                && before.append_publish_tickets@[id].completed is Some
                ==> self.append_publish_tickets@.contains_key(id)
                && self.append_publish_tickets@[id] == before.append_publish_tickets@[id]
    }

    pub open spec fn nodes(&self) -> Map<u128, MetadataNode> {
        self.trees.nodes@
    }

    /// Whether the numbers of nodes, commits and catalog shards last for one
    /// more commit.
    pub open spec fn publish_room(&self) -> bool {
        &&& self.trees.next_metadata_node_id + usize::MAX < u128::MAX
        &&& self.next_commit_seq + 1 < u64::MAX
        &&& self.next_commit_group_id + 1 < u128::MAX
        &&& self.next_keyspace_catalog_shard_id + usize::MAX < u128::MAX
    }

    /// Whether the device part is consistent.
    pub open spec fn devices_wf(&self, block_size: u64) -> bool {
        &&& self.trees.wf(block_size)
        &&& heads_wf(
            self.nodes(),
            self.device_specs@,
            self.device_heads@,
            block_size,
            self.next_device_id,
        )
        &&& history_wf(self.nodes(), self.device_heads@, self.shard_commits@)
        &&& heads_wf(
            self.nodes(),
            self.device_specs@,
            self.deleted_device_heads@,
            block_size,
            self.next_device_id,
        )
        &&& history_wf(self.nodes(), self.deleted_device_heads@, self.shard_commits@)
        &&& forall|id: u128| #[trigger]
            self.deleted_device_heads@.contains_key(id) ==> !self.device_heads@.contains_key(id)
        &&& checkpoints_wf(self.nodes(), self.device_specs@, self.checkpoints@, block_size)
        &&& forall|id: u128| #[trigger]
            self.device_specs@.contains_key(id) ==> id < self.next_device_id
        &&& forall|i: int|
            0 <= i < self.shard_commits@.len() ==> self.device_specs@.contains_key(
                (#[trigger] self.shard_commits@[i]).device_id.0,
            ) && self.shard_commits@[i].commit_seq.0 < self.next_commit_seq
        &&& self.next_commit_seq >= 1
        &&& forall|id: u128| #[trigger]
            self.device_heads@.contains_key(id) ==> self.device_heads@[id].latest_commit.0
                < self.next_commit_seq
    }

    pub open spec fn has_device(&self, device_id: DeviceId) -> bool {
        self.device_heads@.contains_key(device_id.0)
    }

    pub open spec fn roots_of(&self, device_id: DeviceId) -> Seq<MetadataNodeId> {
        self.device_heads@[device_id.0].shard_roots@
    }

    pub open spec fn blocks_of(&self, device_id: DeviceId) -> int {
        self.device_specs@[device_id.0].logical_blocks as int
    }

    /// What everything but the trees and the devices' heads and history says.
    pub open spec fn same_outside_devices(&self, other: &MetadataInner) -> bool {
        &&& self.keyspace_heads == other.keyspace_heads
        &&& self.keyspace_roots == other.keyspace_roots
        &&& self.keyspace_births == other.keyspace_births
        &&& self.keyspace_catalog_shards == other.keyspace_catalog_shards
        &&& self.file_writer_epochs == other.file_writer_epochs
        &&& self.append_streams == other.append_streams
        &&& self.append_publish_in_flight == other.append_publish_in_flight
        &&& self.append_publish_tickets == other.append_publish_tickets
        &&& self.keyspace_commits == other.keyspace_commits
        &&& self.file_commits == other.file_commits
        &&& self.checkpoints == other.checkpoints
        &&& self.metadata_last_mark_epoch == other.metadata_last_mark_epoch
        &&& self.segment_last_mark_epoch == other.segment_last_mark_epoch
        &&& self.next_keyspace_id == other.next_keyspace_id
        &&& self.next_file_id == other.next_file_id
        &&& self.next_keyspace_root_id == other.next_keyspace_root_id
        &&& self.next_keyspace_catalog_shard_id == other.next_keyspace_catalog_shard_id
        &&& self.next_checkpoint_id == other.next_checkpoint_id
        &&& self.next_append_stream_id == other.next_append_stream_id
        &&& self.next_append_ticket_id == other.next_append_ticket_id
        &&& self.next_append_publish_ticket_id == other.next_append_publish_ticket_id
        &&& self.next_gc_epoch == other.next_gc_epoch
        &&& self.history_floor == other.history_floor
    }

    pub fn new() -> (inner: MetadataInner)
        ensures
            forall|block_size: u64| block_size > 0 ==> #[trigger] inner.devices_wf(block_size),
            forall|block_size: u64| #[trigger] inner.files_wf(block_size),
            inner.nodes() == Map::<u128, MetadataNode>::empty(),
            inner.device_heads@ == Map::<u128, DeviceHead>::empty(),
            inner.keyspace_heads@ == Map::<u128, KeyspaceHead>::empty(),
            inner.keyspace_catalog_shards@ == Map::<u128, KeyspaceCatalogShard>::empty(),
            inner.append_streams@ == Map::<u128, LiveAppendStream>::empty(),
            inner.append_publish_in_flight@ == Map::<u128, AppendPublishInFlight>::empty(),
            inner.append_publish_tickets@ == Map::<u128, AppendPublishTicketRecord>::empty(),
            inner.file_writer_epochs@.len() == 0,
            inner.keyspace_commits@.len() == 0,
            inner.file_commits@.len() == 0,
            inner.checkpoints@ == Map::<u128, Checkpoint>::empty(),
            inner.device_specs@ == Map::<u128, DeviceSpec>::empty(),
            inner.deleted_device_heads@ == Map::<u128, DeviceHead>::empty(),
            inner.shard_commits@.len() == 0,
            inner.trees.next_metadata_node_id == 1,
            inner.next_device_id == 1,
            inner.next_keyspace_id == 1,
            inner.next_file_id == 1,
            inner.next_keyspace_root_id == 1,
            inner.next_keyspace_catalog_shard_id == 1,
            inner.next_commit_group_id == 1,
            inner.next_checkpoint_id == 1,
            inner.next_append_stream_id == 1,
            inner.next_append_ticket_id == 1,
            inner.next_append_publish_ticket_id == 1,
            inner.next_commit_seq == 1,
            inner.next_gc_epoch == 1,
            inner.history_floor == 0,
    {
        MetadataInner {
            device_specs: IdMap::new(),
            device_heads: IdMap::new(),
            deleted_device_heads: IdMap::new(),
            keyspace_heads: IdMap::new(),
            keyspace_roots: IdMap::new(),
            keyspace_births: IdMap::new(),
            keyspace_catalog_shards: IdMap::new(),
            file_writer_epochs: Vec::new(),
            append_streams: IdMap::new(),
            append_publish_in_flight: IdMap::new(),
            append_publish_tickets: IdMap::new(),
            trees: TreeStore { nodes: IdMap::new(), next_metadata_node_id: 1 },
            commit_groups: IdMap::new(),
            shard_commits: Vec::new(),
            keyspace_commits: Vec::new(),
            file_commits: Vec::new(),
            fork_records: IdMap::new(),
            delete_records: IdMap::new(),
            checkpoints: IdMap::new(),
            metadata_last_mark_epoch: IdMap::new(),
            segment_last_mark_epoch: IdMap::new(),
            next_device_id: 1,
            next_keyspace_id: 1,
            next_file_id: 1,
            next_keyspace_root_id: 1,
            next_keyspace_catalog_shard_id: 1,
            next_commit_group_id: 1,
            next_checkpoint_id: 1,
            next_append_stream_id: 1,
            next_append_ticket_id: 1,
            next_append_publish_ticket_id: 1,
            next_commit_seq: 1,
            next_gc_epoch: 1,
            history_floor: 0,
        }
    }

    /// What a device is and how far it has come.
    pub fn device_info(&self, device_id: DeviceId) -> (result: Result<DeviceInfo, StorageError>)
        ensures
            result is Ok ==> self.has_device(device_id) && self.device_specs@.contains_key(
                device_id.0,
            ),
            result matches Ok(info) ==> info == (DeviceInfo {
                device_id,
                generation: self.device_heads@[device_id.0].generation,
                spec: self.device_specs@[device_id.0],
                latest_commit: self.device_heads@[device_id.0].latest_commit,
            }),
            self.has_device(device_id) && self.device_specs@.contains_key(device_id.0)
                ==> result is Ok,
            result matches Err(error) ==> error == (StorageError::NotFound {
                kind: "device",
                id: device_id.0,
            }),
    {
        match (self.device_heads.get(device_id.raw()), self.device_specs.get(device_id.raw())) {
            (Some(head), Some(spec)) => Ok(
                DeviceInfo {
                    device_id,
                    generation: head.generation,
                    spec: *spec,
                    latest_commit: head.latest_commit,
                },
            ),
            _ => Err(StorageError::not_found("device", device_id.raw())),
        }
    }
}

} // verus!
