//! Writing to devices.
use vstd::prelude::*;

use crate::batch::{
    DEFAULT_BLOCK_BATCH_MAX_BYTES, PayloadRun, batch_at, batch_counted, batch_places, batch_valid,
    collapse_block_batch_writes, lemma_batch_counted, payload_at, payload_wf, total_len,
};
use crate::block_api::{BlockBatchCommit, BlockBatchWrite, PayloadIntegrity, WriteDurability};
use crate::block_chunks::{
    BlockBatchChunk, batch_chunks_wf, batch_covers, chunk_block_batch, chunk_in_shard,
};
use crate::coordinator::{LocalCoordinator, lemma_block_of_byte, whole_blocks};
use crate::delta_records::{BlockDeltaCommit, BlockDeltaEntry, BlockDeltaReplacement};
use crate::device_trees::{
    bases_wf, device_block_at, edits_apart, edits_in_shards, replace_device_ranges, shards_wf,
};
use crate::error::StorageError;
use crate::file_publish::fenced;
use crate::grants::{WriteGrantRequest, issue_write_grant};
use crate::id::{
    BlockIndex, CommitGroupId, CommitSeq, DeviceGeneration, DeviceId, LogicalDeadline,
    MetadataNodeId, PrincipalId, SegmentId, ShardId, StorageNodeId, TenantId, WriteIntentId,
};
use crate::integrity::payload_integrity_of;
use crate::leaf::SegmentBlock;
use crate::metadata::{lemma_catalog_kept, lemma_devices_kept};
use crate::metadata_devices::{updates_current, updates_fit, with_updates};
use crate::metadata_records::{MappingOwner, MetadataNode, ShardRootUpdate};
use crate::observability::{
    DiagnosticsCounters, StorageEventKind, counted, failure_counted, write_counted,
    write_counts_kept,
};
use crate::ranges::blocks_covering;
use crate::segment_records::{SegmentLifecycleState, SegmentWriteReceipt, WriteGrantIntent};
use crate::storage_nodes::{SegmentRecord, entry_backed, keeps_segments, lemma_backed_kept};
use crate::stored::{
    batch_policies, block_put, lemma_added_marked, lemma_added_under, lemma_one_more_added,
    lemma_one_more_marked, named_by, names_new, referenced, segments_added, segments_marked,
    stored_as,
};
use crate::tree::{
    SegmentReplacement, TreeRangeEdit, edited, edits_backed, is_edited, node_backed, tree_backed,
};
use crate::tree_edit::{edit_outcome, lemma_byte_in_blocks, lemma_mul_le};

verus! {

/// The tenant of everything that the store writes for itself.
pub const LOCAL_TENANT: u128 = 1;

pub const LOCAL_PRINCIPAL: u128 = 1;

/// Local grants do not run out.
pub const LOCAL_GRANT_EXPIRATION: u64 = 0xffff_ffff_ffff_ffff;

/// A tree stays backed while segments are only added.
pub proof fn lemma_tree_backed_kept(
    nodes: Map<u128, MetadataNode>,
    before: Map<u128, SegmentRecord>,
    after: Map<u128, SegmentRecord>,
)
    requires
        tree_backed(nodes, before),
        keeps_segments(before, after),
    ensures
        tree_backed(nodes, after),
{
    assert forall|id: u128| #[trigger] nodes.contains_key(id) implies node_backed(
        nodes[id],
        after,
    ) by {
        assert(node_backed(nodes[id], before));
        if let crate::metadata_records::MetadataNodeKind::Leaf { entries, .. } = nodes[id].kind {
            assert forall|i: int| 0 <= i < entries@.len() implies entry_backed(
                after,
                #[trigger] entries@[i],
            ) by {
                lemma_backed_kept(before, after, entries@[i]);
            }
        }
    }
}

impl LocalCoordinator {
    /// Whether only storage nodes and what the store notes about itself differ.
    pub open spec fn same_metadata(&self, before: &LocalCoordinator) -> bool {
        &&& self.config == before.config
        &&& self.metadata == before.metadata
        &&& self.append_run_logs == before.append_run_logs
        &&& self.append_stream_storage_lanes == before.append_stream_storage_lanes
        &&& self.next_extent_id == before.next_extent_id
        &&& self.block_writer_epochs == before.block_writer_epochs
        &&& self.read_profiler == before.read_profiler
        &&& self.native_file_batch_profiler == before.native_file_batch_profiler
    }

    pub(crate) fn record_event(
        &mut self,
        kind: StorageEventKind,
        storage_node: Option<StorageNodeId>,
        segment_id: Option<SegmentId>,
        commit_seq: Option<CommitSeq>,
    )
        requires
            old(self).observability.wf(),
        ensures
            final(self).observability.wf(),
            final(self).observability.counters == counted(old(self).observability.counters, kind),
            *final(self) == (LocalCoordinator {
                observability: final(self).observability,
                ..*old(self)
            }),
    {
        self.observability.record(kind, storage_node, segment_id, commit_seq);
    }

    /// Notes that a publish failed.
    pub(crate) fn record_publish_failure(&mut self, error: &StorageError)
        requires
            old(self).observability.wf(),
        ensures
            final(self).observability.wf(),
            final(self).observability.counters == failure_counted(
                old(self).observability.counters,
                *error is Conflict,
            ),
            *final(self) == (LocalCoordinator {
                observability: final(self).observability,
                ..*old(self)
            }),
    {
        let fenced = match error {
            StorageError::Conflict { .. } => true,
            _ => false,
        };
        self.observability.record_publish_failure(fenced);
    }

    /// Stores bytes as a new segment on the next node, under a grant of the
    /// store's own.
    pub(crate) fn write_segment_for_intent(
        &mut self,
        intent: WriteGrantIntent,
        write_intent: WriteIntentId,
        data: Vec<u8>,
        durability: WriteDurability,
        payload_integrity: PayloadIntegrity,
    ) -> (result: Result<SegmentWriteReceipt, StorageError>)
        requires
            old(self).wf(),
        ensures
            final(self).wf(),
            final(self).same_metadata(old(self)),
            final(self).next_write_intent == old(self).next_write_intent,
            final(self).storage_nodes.node_ids@ == old(self).storage_nodes.node_ids@,
            keeps_segments(old(self).segments(), final(self).segments()),
            final(self).storage_nodes.next_placement_index == if old(
                self,
            ).storage_nodes.next_placement_index == u64::MAX {
                0
            } else {
                (old(self).storage_nodes.next_placement_index + 1) as u64
            },
            result matches Ok(receipt) ==> receipt.storage_node
                == old(self).storage_nodes.in_turn(),
            result matches Ok(receipt) ==> {
                &&& receipt.segment_id.0 == old(self).storage_nodes.next_segment_id
                &&& receipt.descriptor.segment_id == receipt.segment_id
                &&& receipt.intent == intent
                &&& receipt.write_intent == write_intent
                &&& receipt.durability == durability
                &&& receipt.integrity == payload_integrity_of(payload_integrity, data@)
                &&& receipt.descriptor.bytes == data@.len()
                &&& receipt.descriptor.blocks.0 == blocks_covering(
                    data@.len() as int,
                    final(self).block_size() as int,
                )
                &&& !old(self).segments().contains_key(receipt.segment_id.0)
                &&& final(self).segments().contains_key(receipt.segment_id.0)
                &&& final(self).segments()[receipt.segment_id.0].bytes@ == data@
                &&& final(self).segments()[receipt.segment_id.0].entry.receipt == Some(receipt)
                &&& final(self).segments()[receipt.segment_id.0].entry.state
                    == SegmentLifecycleState::DurablePendingMetadata
                &&& final(self).segments().remove(receipt.segment_id.0) == old(self).segments()
            },
            result is Err ==> final(self).segments() == old(self).segments() && (data@.len() == 0
                || old(self).storage_nodes.next_segment_id == u128::MAX
                || old(self).storage_nodes.next_offset + data@.len() > u64::MAX),
            old(self).storage_nodes.next_segment_id <= final(self).storage_nodes.next_segment_id
                <= old(self).storage_nodes.next_segment_id + 1,
            final(self).storage_nodes.next_offset <= old(self).storage_nodes.next_offset
                + data@.len(),
            result is Ok ==> final(self).observability.counters == counted(
                counted(old(self).observability.counters, StorageEventKind::GrantIssued),
                StorageEventKind::ReceiptVerified,
            ),
            data@.len() == 0 && old(self).storage_nodes.next_segment_id < u128::MAX ==> (
            result matches Err(error) && error is InvalidArgument),
            write_counts_kept(
                old(self).observability.counters,
                final(self).observability.counters,
            ),
    {
        let ghost before = *self;
        let bs: u64 = self.config.block_size as u64;
        let max_bytes: u64 = data.len() as u64;
        let storage_node = self.storage_nodes.choose_storage_node();
        let segment_id = match self.storage_nodes.allocate_segment_id() {
            Ok(segment_id) => segment_id,
            Err(error) => return Err(error),
        };
        let request = WriteGrantRequest {
            tenant: TenantId(LOCAL_TENANT),
            principal: PrincipalId(LOCAL_PRINCIPAL),
            intent,
            write_intent,
            segment_id,
            storage_node,
            max_bytes,
            payload_integrity,
            durability,
            expires_at: LogicalDeadline(LOCAL_GRANT_EXPIRATION),
        };
        let grant = match issue_write_grant(request) {
            Ok(grant) => grant,
            Err(error) => {
                self.record_event(StorageEventKind::GrantRejected, None, None, None);
                return Err(error);
            },
        };
        self.record_event(
            StorageEventKind::GrantIssued,
            Some(storage_node),
            Some(segment_id),
            None,
        );
        let ghost segments = self.segments();
        let receipt = match self.storage_nodes.write_segment(&grant, data, bs) {
            Ok(receipt) => receipt,
            Err(error) => {
                return Err(error);
            },
        };
        proof {
            lemma_tree_backed_kept(self.nodes(), before.segments(), self.segments());
        }
        self.record_event(
            StorageEventKind::ReceiptVerified,
            Some(storage_node),
            Some(segment_id),
            None,
        );
        Ok(receipt)
    }

    /// Stores bytes as a new checked segment that the store itself asked for.
    pub fn write_segment_for_owner(&mut self, owner: MappingOwner, data: Vec<u8>) -> (result: Result<
        SegmentWriteReceipt,
        StorageError,
    >)
        requires
            old(self).wf(),
        ensures
            final(self).wf(),
            final(self).same_metadata(old(self)),
            result matches Ok(receipt) ==> {
                &&& receipt.storage_node == old(self).storage_nodes.in_turn()
                &&& receipt.intent == (WriteGrantIntent::Internal { owner })
                &&& receipt.write_intent.0 == old(self).next_write_intent
                &&& receipt.durability == WriteDurability::Acknowledged
                &&& receipt.integrity == payload_integrity_of(PayloadIntegrity::Verified, data@)
                &&& receipt.descriptor.bytes == data@.len()
                &&& final(self).segments()[receipt.segment_id.0].entry.state
                    == SegmentLifecycleState::DurablePendingMetadata
                &&& !old(self).segments().contains_key(receipt.segment_id.0)
                &&& final(self).segments().contains_key(receipt.segment_id.0)
                &&& final(self).segments()[receipt.segment_id.0].bytes@ == data@
                &&& final(self).segments()[receipt.segment_id.0].entry.receipt == Some(receipt)
                &&& final(self).segments().remove(receipt.segment_id.0) == old(self).segments()
            },
            result is Err ==> final(self).segments() == old(self).segments() && (data@.len() == 0
                || old(self).next_write_intent == u128::MAX
                || old(self).storage_nodes.next_segment_id == u128::MAX
                || old(self).storage_nodes.next_offset + data@.len() > u64::MAX),
            final(self).moved_within(old(self), data@.len() as int),
    {
        let write_intent = match self.take_write_intent() {
            Ok(write_intent) => write_intent,
            Err(error) => return Err(error),
        };
        self.write_segment_for_intent(
            WriteGrantIntent::Internal { owner },
            write_intent,
            data,
            WriteDurability::Acknowledged,
            PayloadIntegrity::Verified,
        )
    }
}

/// Whether an edit leads a chunk's blocks to a segment that holds its bytes.
pub open spec fn edit_holds(
    segments: Map<u128, SegmentRecord>,
    edit: TreeRangeEdit,
    chunk: BlockBatchChunk,
    block_size: u64,
) -> bool {
    &&& edit.range == chunk.chunk.range
    &&& edit.backed(segments)
    &&& edit.replacement matches Some(replacement) && {
        let first = (edit.range.start.0 - replacement.segment_base.0) * block_size;
        let bytes = segments[replacement.segment_id.0].bytes@;
        &&& replacement.segment_base.0 <= edit.range.start.0
        &&& segments.contains_key(replacement.segment_id.0)
        &&& first + chunk.bytes@.len() <= bytes.len()
        &&& bytes.subrange(first, first + chunk.bytes@.len()) == chunk.bytes@
    }
}

/// The policies of a batch's chunks.
pub open spec fn chunk_policies(chunks: Seq<BlockBatchChunk>) -> Set<PayloadIntegrity> {
    Set::new(
        |policy: PayloadIntegrity|
            exists|i: int|
                0 <= i < chunks.len() && (#[trigger] chunks[i]).payload_integrity == policy,
    )
}

/// Whether receipts are those of segments that no metadata refers to yet.
pub open spec fn receipts_pending(
    segments: Map<u128, SegmentRecord>,
    receipts: Seq<SegmentWriteReceipt>,
) -> bool {
    forall|i: int|
        0 <= i < receipts.len() ==> segments.contains_key((#[trigger] receipts[i]).segment_id.0)
            && segments[receipts[i].segment_id.0].entry.receipt == Some(receipts[i])
            && segments[receipts[i].segment_id.0].entry.state
            == SegmentLifecycleState::DurablePendingMetadata
}

/// Whether receipts are those of stored segments that may be referred to.
pub open spec fn receipts_usable(
    segments: Map<u128, SegmentRecord>,
    receipts: Seq<SegmentWriteReceipt>,
) -> bool {
    forall|i: int|
        0 <= i < receipts.len() ==> segments.contains_key((#[trigger] receipts[i]).segment_id.0)
            && segments[receipts[i].segment_id.0].entry.receipt == Some(receipts[i]) && (
        segments[receipts[i].segment_id.0].entry.state
            == SegmentLifecycleState::DurablePendingMetadata
            || segments[receipts[i].segment_id.0].entry.state == SegmentLifecycleState::Referenced)
}

proof fn lemma_edit_kept(
    before: Map<u128, SegmentRecord>,
    after: Map<u128, SegmentRecord>,
    edit: TreeRangeEdit,
    chunk: BlockBatchChunk,
    block_size: u64,
)
    requires
        keeps_segments(before, after),
        edit_holds(before, edit, chunk, block_size),
    ensures
        edit_holds(after, edit, chunk, block_size),
{
    let id = edit.replacement->0.segment_id.0;
    assert(before.contains_key(id));
}

/// Where a run of chunks with the same shard and integrity ends.
fn packed_run_end(chunks: &Vec<BlockBatchChunk>, start: usize) -> (end: usize)
    requires
        start < chunks@.len(),
    ensures
        start < end <= chunks@.len(),
        forall|i: int|
            start <= i < end ==> (#[trigger] chunks@[i]).payload_integrity
                == chunks@[start as int].payload_integrity && chunks@[i].chunk.shard_id
                == chunks@[start as int].chunk.shard_id,
        end < chunks@.len() ==> chunks@[end as int].payload_integrity
            != chunks@[start as int].payload_integrity || chunks@[end as int].chunk.shard_id
            != chunks@[start as int].chunk.shard_id,
{
    let count: usize = chunks.len();
    let mut end: usize = start + 1;
    while end < count && chunks[end].payload_integrity == chunks[start].payload_integrity
        && chunks[end].chunk.shard_id.0 == chunks[start].chunk.shard_id.0
        invariant
            start < end <= chunks@.len(),
            count == chunks@.len(),
            forall|i: int|
                start <= i < end ==> (#[trigger] chunks@[i]).payload_integrity
                    == chunks@[start as int].payload_integrity && chunks@[i].chunk.shard_id
                    == chunks@[start as int].chunk.shard_id,
        decreases chunks@.len() - end,
    {
        end = end + 1;
    }
    end
}

/// The bytes of a run of chunks, one behind the other, and the block at which
/// each starts.
#[verifier::rlimit(40)]
fn pack_run(
    chunks: &Vec<BlockBatchChunk>,
    start: usize,
    end: usize,
    block_size: u64,
) -> (packed: (Vec<u8>, Vec<u64>))
    requires
        start < end <= chunks@.len(),
        block_size > 0,
        forall|i: int|
            start <= i < end ==> (#[trigger] chunks@[i]).chunk.range.end() <= u64::MAX
                && chunks@[i].bytes@.len() == chunks@[i].chunk.range.blocks.0 * block_size,
        forall|i: int, j: int|
            start <= i < j < end ==> (#[trigger] chunks@[i]).chunk.range.end() <= (
            #[trigger] chunks@[j]).chunk.range.start.0,
    ensures
        packed.1@.len() == end - start,
        packed.0@.len() as int % block_size as int == 0,
        packed.0@.len() + chunks@[start as int].chunk.range.start.0 * block_size
            <= chunks@[end - 1].chunk.range.end() * block_size,
        forall|i: int|
            start <= i < end ==> packed_at(
                packed.0@,
                #[trigger] packed.1@[i - start],
                chunks@[i],
                block_size,
            ),
{
    let mut bytes: Vec<u8> = Vec::new();
    let mut firsts: Vec<u64> = Vec::new();
    let mut next: u64 = 0;
    let mut i: usize = start;
    while i < end
        invariant
            start <= i <= end <= chunks@.len(),
            start < end,
            block_size > 0,
            forall|i: int|
                start <= i < end ==> (#[trigger] chunks@[i]).chunk.range.end() <= u64::MAX
                    && chunks@[i].bytes@.len() == chunks@[i].chunk.range.blocks.0 * block_size,
            forall|i: int, j: int|
                start <= i < j < end ==> (#[trigger] chunks@[i]).chunk.range.end() <= (
                #[trigger] chunks@[j]).chunk.range.start.0,
            firsts@.len() == i - start,
            bytes@.len() == next * block_size,
            i == start ==> next == 0,
            i > start ==> next + chunks@[start as int].chunk.range.start.0 <= chunks@[i
                - 1].chunk.range.end(),
            forall|k: int|
                start <= k < i ==> packed_at(
                    bytes@,
                    #[trigger] firsts@[k - start],
                    chunks@[k],
                    block_size,
                ),
        decreases end - i,
    {
        let ghost before = bytes@;
        let ghost firsts_before = firsts@;
        let chunk = &chunks[i];
        proof {
            if i > start {
                assert(chunks@[i - 1].chunk.range.end() <= chunks@[i as int].chunk.range.start.0);
            }
            assert(chunks@[i as int].chunk.range.end() <= u64::MAX);
        }
        firsts.push(next);
        let mut copy = crate::tree::copy_vec(&chunk.bytes);
        bytes.append(&mut copy);
        proof {
            let blocks = chunk.chunk.range.blocks.0;
            assert(next * block_size + blocks * block_size == (next + blocks) * block_size)
                by (nonlinear_arith);
            assert(bytes@.subrange(before.len() as int, bytes@.len() as int) =~= chunk.bytes@);
            assert(packed_at(bytes@, next, chunks@[i as int], block_size));
            assert forall|k: int| start <= k < i + 1 implies packed_at(
                bytes@,
                #[trigger] firsts@[k - start],
                chunks@[k],
                block_size,
            ) by {
                if k < i {
                    assert(firsts@[k - start] == firsts_before[k - start]);
                    assert(packed_at(before, firsts_before[k - start], chunks@[k], block_size));
                    let first = firsts@[k - start] * block_size;
                    let last = first + chunks@[k].bytes@.len();
                    assert(bytes@.subrange(first, last) =~= before.subrange(first, last));
                }
            }
        }
        next = next + chunk.chunk.range.blocks.0;
        i = i + 1;
    }
    proof {
        vstd::arithmetic::div_mod::lemma_mod_multiples_basic(next as int, block_size as int);
        let from = chunks@[start as int].chunk.range.start.0;
        lemma_mul_le(next + from, chunks@[end - 1].chunk.range.end(), block_size as int);
        assert((next + from) * block_size == next * block_size + from * block_size)
            by (nonlinear_arith);
    }
    (bytes, firsts)
}

/// Whether a chunk's bytes stand at a block of the packed bytes that is not
/// behind its place on the device.
spec fn packed_at(
    bytes: Seq<u8>,
    first: u64,
    chunk: BlockBatchChunk,
    block_size: u64,
) -> bool {
    &&& first <= chunk.chunk.range.start.0
    &&& first * block_size + chunk.bytes@.len() <= bytes.len()
    &&& bytes.subrange(first * block_size, first * block_size + chunk.bytes@.len()) == chunk.bytes@
}

/// The updates that lead from one list of roots to another.
fn updates_between(
    roots: &Vec<MetadataNodeId>,
    new_roots: &Vec<MetadataNodeId>,
    nodes: Ghost<Map<u128, MetadataNode>>,
) -> (updates: Vec<ShardRootUpdate>)
    requires
        roots@.len() == new_roots@.len(),
        roots@.len() <= u32::MAX,
        forall|s: int|
            0 <= s < roots@.len() ==> nodes@.contains_key((#[trigger] roots@[s]).0)
                && nodes@.contains_key(new_roots@[s].0) && nodes@[new_roots@[s].0].covered_range
                == nodes@[roots@[s].0].covered_range,
    ensures
        with_updates(roots@, updates@) == new_roots@,
        updates_current(roots@, updates@),
        updates_fit(nodes@, updates@),
        updates@.len() == 0 ==> roots@ == new_roots@,
        roots@ == new_roots@ ==> updates@.len() == 0,
{
    let mut updates: Vec<ShardRootUpdate> = Vec::new();
    let mut s: usize = 0;
    proof {
        assert(roots@.take(0) =~= new_roots@.take(0));
        assert(new_roots@.take(0) + roots@.skip(0) =~= roots@);
    }
    while s < roots.len()
        invariant
            s <= roots@.len(),
            roots@.len() == new_roots@.len(),
            roots@.len() <= u32::MAX,
            forall|s: int|
                0 <= s < roots@.len() ==> nodes@.contains_key((#[trigger] roots@[s]).0)
                    && nodes@.contains_key(new_roots@[s].0)
                    && nodes@[new_roots@[s].0].covered_range == nodes@[roots@[s].0].covered_range,
            with_updates(roots@, updates@) == new_roots@.take(s as int) + roots@.skip(s as int),
            updates_current(roots@, updates@),
            updates_fit(nodes@, updates@),
            updates@.len() == 0 <==> roots@.take(s as int) == new_roots@.take(s as int),
        decreases roots@.len() - s,
    {
        let ghost before = updates@;
        let ghost partial = new_roots@.take(s as int) + roots@.skip(s as int);
        let ghost next = new_roots@.take(s + 1) + roots@.skip(s + 1);
        let old_root = roots[s];
        let new_root = new_roots[s];
        if old_root.0 != new_root.0 {
            let update = ShardRootUpdate { shard_id: ShardId(s as u32), old_root, new_root };
            updates.push(update);
            proof {
                assert(updates@.drop_last() =~= before);
                assert(partial.update(s as int, new_root) =~= next);
                assert(roots@.take(s + 1)[s as int] != new_roots@.take(s + 1)[s as int]);
            }
        } else {
            proof {
                assert(partial =~= next);
                if roots@.take(s as int) == new_roots@.take(s as int) {
                    assert(roots@.take(s + 1) =~= roots@.take(s as int).push(old_root));
                    assert(new_roots@.take(s + 1) =~= new_roots@.take(s as int).push(new_root));
                } else {
                    let k = choose|k: int|
                        0 <= k < s && roots@.take(s as int)[k] != new_roots@.take(s as int)[k];
                    assert(roots@.take(s as int) =~= new_roots@.take(s as int) || exists|k: int|
                        0 <= k < s && roots@.take(s as int)[k] != new_roots@.take(s as int)[k]);
                    assert(roots@.take(s + 1)[k] != new_roots@.take(s + 1)[k]);
                }
            }
        }
        s = s + 1;
    }
    proof {
        assert(new_roots@.take(s as int) + roots@.skip(s as int) =~= new_roots@);
        assert(roots@.take(s as int) =~= roots@);
        assert(new_roots@.take(s as int) =~= new_roots@);
    }
    updates
}

/// What a publish does to the counters; one that is announced counts as an
/// attempt to write.
pub open spec fn publish_counted(
    counters: DiagnosticsCounters,
    announced: bool,
    published: bool,
) -> DiagnosticsCounters {
    if !published {
        counters
    } else if announced {
        counted(
            counted(counters, StorageEventKind::CoordinatorWriteStarted),
            StorageEventKind::MetadataPublishSucceeded,
        )
    } else {
        counted(counters, StorageEventKind::MetadataPublishSucceeded)
    }
}

impl LocalCoordinator {
    /// Whether edits can be made to a device in one commit.
    pub open spec fn edits_for_device(
        &self,
        device_id: DeviceId,
        edits: Seq<TreeRangeEdit>,
    ) -> bool {
        &&& edits_apart(edits)
        &&& bases_wf(edits)
        &&& edits_in_shards(self.nodes(), self.metadata.roots_of(device_id), edits)
    }

    /// Whether a device's blocks are what edits make of the blocks before.
    pub open spec fn device_edited(
        &self,
        before: &LocalCoordinator,
        device_id: DeviceId,
        edits: Seq<TreeRangeEdit>,
    ) -> bool {
        forall|block: int|
            0 <= block < before.metadata.blocks_of(device_id) ==> edit_outcome(
                edits,
                block,
                device_block_at(before.nodes(), before.metadata.roots_of(device_id), block),
                #[trigger] device_block_at(
                    self.nodes(),
                    self.metadata.roots_of(device_id),
                    block,
                ),
            )
    }

    /// Puts edits into a device's trees and publishes the new roots. No commit is
    /// made where nothing changes. A commit that is announced counts as an attempt
    /// to write.
    #[verifier::rlimit(60)]
    pub(crate) fn publish_device_edits(
        &mut self,
        device_id: DeviceId,
        fence: DeviceGeneration,
        edits: &Vec<TreeRangeEdit>,
        announced: bool,
    ) -> (result: Result<Option<CommitSeq>, StorageError>)
        requires
            old(self).wf(),
            old(self).metadata.has_device(device_id),
            old(self).edits_for_device(device_id, edits@),
        ensures
            final(self).wf(),
            final(self).keeps_store(old(self)),
            final(self).storage_nodes == old(self).storage_nodes,
            final(self).append_run_logs == old(self).append_run_logs,
            final(self).next_write_intent == old(self).next_write_intent,
            final(self).next_extent_id == old(self).next_extent_id,
            final(self).block_writer_epochs == old(self).block_writer_epochs,
            final(self).metadata.same_outside_devices(&old(self).metadata),
            final(self).metadata.device_specs == old(self).metadata.device_specs,
            final(self).metadata.device_heads@.dom() == old(self).metadata.device_heads@.dom(),
            final(self).other_devices_kept(old(self), device_id),
            final(self).metadata.device_heads@[device_id.0].generation == old(
                self,
            ).metadata.device_heads@[device_id.0].generation,
            result matches Ok(seq) ==> final(self).device_edited(old(self), device_id, edits@),
            result is Ok ==> final(self).same_shards(old(self), device_id),
            final(self).metadata.past_kept(&old(self).metadata),
            result matches Ok(Some(seq)) ==> seq.0 == old(self).metadata.next_commit_seq
                && final(self).metadata.next_commit_seq == seq.0 + 1
                && final(self).metadata.device_heads@[device_id.0].latest_commit == seq
                && final(self).metadata.device_heads@[device_id.0].generation == fence,
            result matches Ok(None) ==> final(self).metadata == old(self).metadata,
            result is Err ==> final(self).metadata.device_heads == old(self).metadata.device_heads,
            result is Err ==> !edits_backed(edits@, old(self).segments()) || old(
                self,
            ).metadata.device_heads@[device_id.0].generation != fence || !old(
                self,
            ).metadata.publish_room(),
            final(self).moved_within(old(self), 0),
            final(self).append_stream_storage_lanes == old(self).append_stream_storage_lanes,
            final(self).read_profiler == old(self).read_profiler,
            final(self).native_file_batch_profiler == old(self).native_file_batch_profiler,
            old(self).metadata.device_heads@[device_id.0].generation != fence && edits@.len() > 0
                ==> (result matches Err(error) ==> error is Conflict || !edits_backed(
                edits@,
                old(self).segments(),
            ) || !old(self).metadata.publish_room()),
            result matches Ok(Some(seq)) ==> final(self).metadata.block_commit_recorded(
                &old(self).metadata,
                device_id,
                seq,
            ),
            result is Ok ==> final(self).observability.counters == publish_counted(
                old(self).observability.counters,
                announced,
                result->Ok_0 is Some,
            ),
            result matches Ok(None) ==> final(self).observability == old(self).observability,
    {
        let ghost before = *self;
        let bs: u64 = self.config.block_size as u64;
        let ghost blocks = self.metadata.blocks_of(device_id);
        assert(self.metadata.device_heads@.contains_key(device_id.0));
        let roots = match self.metadata.device_heads.get(device_id.raw()) {
            Some(head) => crate::tree::copy_vec(&head.shard_roots),
            None => return Err(StorageError::not_found("device", device_id.raw())),
        };
        let edited = replace_device_ranges(
            &mut self.metadata.trees,
            &self.storage_nodes.segments,
            bs,
            &roots,
            edits,
            Ghost(blocks),
        );
        proof {
            lemma_devices_kept(
                before.nodes(),
                self.nodes(),
                before.metadata.device_specs@,
                before.metadata.device_heads@,
                before.metadata.deleted_device_heads@,
                before.metadata.shard_commits@,
                before.metadata.checkpoints@,
                bs,
                before.metadata.next_device_id,
            );
            lemma_catalog_kept(
                before.nodes(),
                self.nodes(),
                self.metadata.keyspace_catalog_shards@,
                bs,
                self.metadata.next_file_id,
                self.metadata.next_keyspace_catalog_shard_id,
            );
            assert(crate::read_plan::runs_backed(before.logs(), Seq::empty()));
            assert(crate::read_plan::tree_runs_backed(self.nodes(), self.logs()));
            assert(self.wf());
            self.metadata.trees.lemma_few_new(&before.metadata.trees);
        }
        let new_roots = match edited {
            Ok(new_roots) => new_roots,
            Err(error) => return Err(error),
        };
        proof {
            assert forall|s: int| 0 <= s < roots@.len() implies self.nodes().contains_key(
                (#[trigger] roots@[s]).0,
            ) && self.nodes().contains_key(new_roots@[s].0)
                && self.nodes()[new_roots@[s].0].covered_range
                == self.nodes()[roots@[s].0].covered_range by {
                assert(before.nodes().contains_key(roots@[s].0));
                assert(self.nodes()[new_roots@[s].0].covered_range
                    == before.nodes()[roots@[s].0].covered_range);
            }
        }
        let updates = updates_between(&roots, &new_roots, Ghost(self.nodes()));
        if updates.len() == 0 {
            return Ok(None);
        }
        if announced {
            self.record_event(StorageEventKind::CoordinatorWriteStarted, None, None, None);
        }
        let ghost middle = *self;
        match self.metadata.publish_block_commit(device_id, fence, &updates, Ghost(bs)) {
            Ok(seq) => {
                self.record_event(
                    StorageEventKind::MetadataPublishSucceeded,
                    None,
                    None,
                    Some(seq),
                );
                proof {
                    assert(self.metadata.updates_recorded(
                        &before.metadata,
                        device_id,
                        seq,
                        updates@,
                    ));
                    self.metadata.lemma_commit_keeps_past(
                        &before.metadata,
                        device_id,
                        seq,
                        CommitGroupId(before.metadata.next_commit_group_id),
                        updates@,
                    );
                    assert forall|other: DeviceId| other != device_id implies #[trigger]
                        self.device_kept(&before, other) by {
                        if before.metadata.has_device(other) {
                            assert(before.metadata.device_heads@.dom().contains(other.0));
                            assert(self.metadata.device_heads@.remove(device_id.0)[other.0]
                                == before.metadata.device_heads@.remove(device_id.0)[other.0]);
                        }
                    }
                }
                Ok(Some(seq))
            },
            Err(error) => {
                self.record_publish_failure(&error);
                Err(error)
            },
        }
    }
}

/// A committed batch and the mapping that it left.
pub struct BlockBatchCommitWithDelta {
    pub commit: BlockBatchCommit,
    pub delta: Option<BlockDeltaCommit>,
}

impl LocalCoordinator {
    /// Stores a batch's chunks as segments, packing what shares a shard and an
    /// integrity, and says how the trees have to change.
    #[verifier::rlimit(80)]
    fn write_batch_segments(
        &mut self,
        device_id: DeviceId,
        fence: DeviceGeneration,
        chunks: &Vec<BlockBatchChunk>,
        write_intent: WriteIntentId,
        durability: WriteDurability,
        roots: Ghost<Seq<MetadataNodeId>>,
        runs: Ghost<Seq<PayloadRun>>,
        blocks: Ghost<int>,
    ) -> (result: Result<(Vec<TreeRangeEdit>, Vec<SegmentWriteReceipt>), StorageError>)
        requires
            old(self).wf(),
            shards_wf(old(self).nodes(), roots@, blocks@),
            blocks@ >= 0,
            batch_chunks_wf(
                old(self).nodes(),
                roots@,
                chunks@,
                runs@,
                old(self).block_size(),
            ),
        ensures
            final(self).wf(),
            final(self).same_metadata(old(self)),
            final(self).next_write_intent == old(self).next_write_intent,
            final(self).storage_nodes.node_ids@ == old(self).storage_nodes.node_ids@,
            keeps_segments(old(self).segments(), final(self).segments()),
            whole_blocks(old(self).segments(), old(self).block_size()) ==> whole_blocks(
                final(self).segments(),
                final(self).block_size(),
            ),
            result matches Ok((edits, receipts)) ==> edits@.len() == chunks@.len() && (forall|i: int|
                0 <= i < edits@.len() ==> edit_holds(
                    final(self).segments(),
                    #[trigger] edits@[i],
                    chunks@[i],
                    final(self).block_size(),
                )) && receipts_pending(final(self).segments(), receipts@),
            result matches Ok((edits, _)) ==> forall|i: int|
                0 <= i < edits@.len() ==> (#[trigger] edits@[i]).replacement->0.segment_id.0 >= old(
                    self,
                ).storage_nodes.next_segment_id && stored_as(
                    final(self).segments(),
                    edits@[i].replacement->0.segment_id.0,
                    chunks@[i].payload_integrity,
                    old(self).block_size(),
                    SegmentLifecycleState::DurablePendingMetadata,
                ),
            segments_added(
                old(self).segments(),
                final(self).segments(),
                chunk_policies(chunks@),
                old(self).block_size(),
                SegmentLifecycleState::DurablePendingMetadata,
            ),
            result matches Ok((_, receipts)) ==> names_new(
                old(self).segments(),
                final(self).segments(),
                receipts@,
            ),
            write_counts_kept(
                old(self).observability.counters,
                final(self).observability.counters,
            ),
            final(self).storage_nodes.next_segment_id <= old(self).storage_nodes.next_segment_id
                + chunks@.len(),
            final(self).storage_nodes.next_offset <= old(self).storage_nodes.next_offset + blocks@
                * old(self).block_size(),
            result is Err ==> old(self).storage_nodes.next_segment_id + chunks@.len() >= u128::MAX
                || old(self).storage_nodes.next_offset + blocks@ * old(self).block_size()
                > u64::MAX,
    {
        let ghost before = *self;
        let bs: u64 = self.config.block_size as u64;
        let mut edits: Vec<TreeRangeEdit> = Vec::new();
        let mut receipts: Vec<SegmentWriteReceipt> = Vec::new();
        let mut index: usize = 0;
        proof {
            assert(0 <= blocks@ * bs) by (nonlinear_arith)
                requires
                    blocks@ >= 0,
                    bs > 0,
            ;
        }
        while index < chunks.len()
            invariant
                index <= chunks@.len(),
                before == *old(self),
                bs == before.block_size(),
                bs > 0,
                shards_wf(before.nodes(), roots@, blocks@),
                batch_chunks_wf(before.nodes(), roots@, chunks@, runs@, bs),
                self.wf(),
                self.same_metadata(&before),
                self.next_write_intent == before.next_write_intent,
                self.storage_nodes.node_ids@ == before.storage_nodes.node_ids@,
                keeps_segments(before.segments(), self.segments()),
                whole_blocks(before.segments(), bs) ==> whole_blocks(self.segments(), bs),
                edits@.len() == index,
                forall|i: int|
                    0 <= i < edits@.len() ==> edit_holds(
                        self.segments(),
                        #[trigger] edits@[i],
                        chunks@[i],
                        bs,
                    ),
                receipts_pending(self.segments(), receipts@),
                forall|i: int|
                    0 <= i < edits@.len() ==> (#[trigger] edits@[i]).replacement->0.segment_id.0
                        >= before.storage_nodes.next_segment_id && stored_as(
                        self.segments(),
                        edits@[i].replacement->0.segment_id.0,
                        chunks@[i].payload_integrity,
                        bs,
                        SegmentLifecycleState::DurablePendingMetadata,
                    ),
                segments_added(
                    before.segments(),
                    self.segments(),
                    chunk_policies(chunks@),
                    bs,
                    SegmentLifecycleState::DurablePendingMetadata,
                ),
                names_new(before.segments(), self.segments(), receipts@),
                write_counts_kept(before.observability.counters, self.observability.counters),
                before.storage_nodes.next_segment_id <= self.storage_nodes.next_segment_id
                    <= before.storage_nodes.next_segment_id + index,
                blocks@ >= 0,
                index == 0 ==> self.storage_nodes.next_offset == before.storage_nodes.next_offset,
                index > 0 ==> self.storage_nodes.next_offset <= before.storage_nodes.next_offset
                    + chunks@[index - 1].chunk.range.end() * bs,
                index > 0 ==> chunks@[index - 1].chunk.range.end() * bs <= blocks@ * bs,
            decreases chunks@.len() - index,
        {
            let ghost segments_before = self.segments();
            let ghost offset_before = self.storage_nodes.next_offset;
            let end = packed_run_end(chunks, index);
            proof {
                assert forall|i: int| index <= i < end implies (
                #[trigger] chunks@[i]).chunk.range.end() <= u64::MAX && chunks@[i].bytes@.len()
                    == chunks@[i].chunk.range.blocks.0 * bs by {
                    assert(chunk_in_shard(before.nodes(), roots@, chunks@[i].chunk));
                }
            }
            let (packed, firsts) = pack_run(chunks, index, end, bs);
            let intent = if end - index == 1 {
                WriteGrantIntent::BlockWrite {
                    device_id,
                    range: chunks[index].chunk.range,
                    fence,
                    shard_id: chunks[index].chunk.shard_id,
                    old_root: chunks[index].chunk.old_root,
                }
            } else {
                WriteGrantIntent::Internal { owner: MappingOwner::BlockDevice(device_id) }
            };
            let payload_integrity = chunks[index].payload_integrity;
            let ghost packed_bytes = packed@;
            proof {
                let last = chunks@[end - 1].chunk;
                assert(chunk_in_shard(before.nodes(), roots@, last));
                assert(last.range.end() <= blocks@) by {
                    assert(before.nodes().contains_key(roots@[last.shard_id.0 as int].0));
                }
                lemma_mul_le(last.range.end(), blocks@, bs as int);
                let first = chunks@[index as int];
                if index > 0 {
                    assert(chunks@[index - 1].chunk.range.end() <= first.chunk.range.start.0);
                    lemma_mul_le(
                        chunks@[index - 1].chunk.range.end(),
                        first.chunk.range.start.0 as int,
                        bs as int,
                    );
                } else {
                    assert(first.chunk.range.start.0 * bs >= 0) by (nonlinear_arith)
                        requires
                            first.chunk.range.start.0 >= 0,
                            bs > 0,
                    ;
                }
                assert(packed_at(packed_bytes, firsts@[index - index], first, bs));
                assert(first.bytes@.len() > 0) by {
                    assert(chunk_in_shard(before.nodes(), roots@, first.chunk));
                    assert(first.chunk.range.blocks.0 * bs > 0) by (nonlinear_arith)
                        requires
                            first.chunk.range.blocks.0 > 0,
                            bs > 0,
                    ;
                }
            }
            let receipt = match self.write_segment_for_intent(
                intent,
                write_intent,
                packed,
                durability,
                payload_integrity,
            ) {
                Ok(receipt) => receipt,
                Err(error) => return Err(error),
            };
            let ghost receipts_before = receipts@;
            receipts.push(receipt);
            let ghost segments_now = self.segments();
            proof {
                assert(chunk_policies(chunks@).contains(payload_integrity)) by {
                    assert(chunks@[index as int].payload_integrity == payload_integrity);
                }
                lemma_one_more_added(
                    before.segments(),
                    segments_before,
                    segments_now,
                    receipts_before,
                    receipt,
                    chunk_policies(chunks@),
                    payload_integrity,
                    bs,
                    SegmentLifecycleState::DurablePendingMetadata,
                );
                assert forall|i: int| 0 <= i < edits@.len() implies stored_as(
                    segments_now,
                    (#[trigger] edits@[i]).replacement->0.segment_id.0,
                    chunks@[i].payload_integrity,
                    bs,
                    SegmentLifecycleState::DurablePendingMetadata,
                ) by {
                    let id = edits@[i].replacement->0.segment_id.0;
                    assert(segments_before.contains_key(id));
                    assert(segments_now.remove(receipt.segment_id.0)[id] == segments_before[id]);
                }
                assert forall|i: int| 0 <= i < edits@.len() implies edit_holds(
                    segments_now,
                    #[trigger] edits@[i],
                    chunks@[i],
                    bs,
                ) by {
                    lemma_edit_kept(segments_before, segments_now, edits@[i], chunks@[i], bs);
                }
                assert forall|id: u128| whole_blocks(before.segments(), bs)
                    && #[trigger] segments_now.contains_key(id) implies segments_now[id].bytes@.len()
                    as int % bs as int == 0 by {
                    if id != receipt.segment_id.0 {
                        assert(segments_now.remove(receipt.segment_id.0).contains_key(id));
                        assert(segments_before.contains_key(id));
                    }
                }
                assert forall|i: int| 0 <= i < receipts@.len() implies segments_now.contains_key(
                    (#[trigger] receipts@[i]).segment_id.0,
                ) && segments_now[receipts@[i].segment_id.0].entry.receipt == Some(receipts@[i])
                    && segments_now[receipts@[i].segment_id.0].entry.state
                    == SegmentLifecycleState::DurablePendingMetadata by {
                    if i < receipts@.len() - 1 {
                        let id = receipts@[i].segment_id.0;
                        assert(segments_before.contains_key(id));
                        assert(segments_now.remove(receipt.segment_id.0)[id]
                            == segments_before[id]);
                    }
                }
            }
            let mut k: usize = index;
            while k < end
                invariant
                    index <= k <= end <= chunks@.len(),
                    bs > 0,
                    edits@.len() == k,
                    firsts@.len() == end - index,
                    receipt.segment_id.0 >= before.storage_nodes.next_segment_id,
                    forall|i: int|
                        0 <= i < edits@.len() ==> (
                        #[trigger] edits@[i]).replacement->0.segment_id.0
                            >= before.storage_nodes.next_segment_id && stored_as(
                            segments_now,
                            edits@[i].replacement->0.segment_id.0,
                            chunks@[i].payload_integrity,
                            bs,
                            SegmentLifecycleState::DurablePendingMetadata,
                        ),
                    stored_as(
                        segments_now,
                        receipt.segment_id.0,
                        payload_integrity,
                        bs,
                        SegmentLifecycleState::DurablePendingMetadata,
                    ),
                    forall|i: int|
                        index <= i < end ==> (#[trigger] chunks@[i]).payload_integrity
                            == payload_integrity,
                    segments_now.contains_key(receipt.segment_id.0),
                    segments_now[receipt.segment_id.0].bytes@ == packed_bytes,
                    segments_now[receipt.segment_id.0].entry.receipt == Some(receipt),
                    receipt.descriptor.blocks.0 == blocks_covering(
                        packed_bytes.len() as int,
                        bs as int,
                    ),
                    batch_chunks_wf(before.nodes(), roots@, chunks@, runs@, bs),
                    forall|i: int|
                        index <= i < end ==> packed_at(
                            packed_bytes,
                            #[trigger] firsts@[i - index],
                            chunks@[i],
                            bs,
                        ),
                    forall|i: int|
                        0 <= i < edits@.len() ==> edit_holds(
                            segments_now,
                            #[trigger] edits@[i],
                            chunks@[i],
                            bs,
                        ),
                decreases end - k,
            {
                let ghost edits_before = edits@;
                let range = chunks[k].chunk.range;
                let first: u64 = firsts[k - index];
                proof {
                    assert(packed_at(packed_bytes, firsts@[k - index], chunks@[k as int], bs));
                }
                let edit = TreeRangeEdit {
                    range,
                    replacement: Some(
                        SegmentReplacement {
                            segment_id: receipt.segment_id,
                            segment_base: BlockIndex(range.start.0 - first),
                        },
                    ),
                };
                edits.push(edit);
                proof {
                    let chunk = chunks@[k as int];
                    assert(chunk_in_shard(before.nodes(), roots@, chunk.chunk));
                    lemma_packed_blocks(
                        first as int,
                        range.blocks.0 as int,
                        packed_bytes.len() as int,
                        bs as int,
                    );
                    assert(edit_holds(segments_now, edit, chunk, bs));
                    assert forall|i: int| 0 <= i < edits@.len() implies edit_holds(
                        segments_now,
                        #[trigger] edits@[i],
                        chunks@[i],
                        bs,
                    ) by {
                        if i < k {
                            assert(edits@[i] == edits_before[i]);
                        }
                    }
                }
                k = k + 1;
            }
            index = end;
        }
        Ok((edits, receipts))
    }
}

/// Blocks that fit in some bytes are among those that cover them.
proof fn lemma_packed_blocks(first: int, blocks: int, len: int, block_size: int)
    requires
        block_size > 0,
        first >= 0,
        blocks >= 0,
        first * block_size + blocks * block_size <= len,
    ensures
        first + blocks <= blocks_covering(len, block_size),
{
    let q = blocks_covering(len, block_size);
    vstd::arithmetic::div_mod::lemma_fundamental_div_mod(len + block_size - 1, block_size);
    assert(first + blocks <= q) by (nonlinear_arith)
        requires
            len + block_size - 1 == block_size * q + (len + block_size - 1) % block_size,
            0 <= (len + block_size - 1) % block_size < block_size,
            first * block_size + blocks * block_size <= len,
            block_size > 0,
    ;
}

/// The change of a tree that a delta entry stands for.
pub open spec fn delta_edit(entry: BlockDeltaEntry) -> TreeRangeEdit {
    TreeRangeEdit {
        range: entry.range,
        replacement: match entry.replacement {
            BlockDeltaReplacement::Segment { segment_id, segment_offset } => Some(
                SegmentReplacement {
                    segment_id,
                    segment_base: BlockIndex((entry.range.start.0 - segment_offset.0) as u64),
                },
            ),
            BlockDeltaReplacement::Sparse => None,
        },
    }
}

pub open spec fn delta_edits(entries: Seq<BlockDeltaEntry>) -> Seq<TreeRangeEdit> {
    entries.map_values(|entry: BlockDeltaEntry| delta_edit(entry))
}

/// The byte that a device has after a batch.
pub open spec fn byte_after_batch(
    writes: Seq<BlockBatchWrite>,
    byte: int,
    before: u8,
) -> u8 {
    match batch_at(writes, byte) {
        Some(written) => written.value,
        None => before,
    }
}

/// The sum of the runs' lengths.
pub(crate) fn total_len_of(runs: &Vec<PayloadRun>) -> (total: u64)
    requires
        total_len(runs@) <= u64::MAX,
    ensures
        total == total_len(runs@),
{
    let mut total: u64 = 0;
    let mut i: usize = 0;
    assert(runs@.take(0) =~= Seq::<PayloadRun>::empty());
    while i < runs.len()
        invariant
            i <= runs@.len(),
            total == total_len(runs@.take(i as int)),
            total_len(runs@) <= u64::MAX,
        decreases runs@.len() - i,
    {
        proof {
            assert(runs@.take(i + 1).drop_last() =~= runs@.take(i as int));
            lemma_total_len_prefix(runs@, i + 1);
        }
        total = total + runs[i].bytes.len() as u64;
        i = i + 1;
    }
    assert(runs@.take(i as int) =~= runs@);
    total
}

pub proof fn lemma_total_len_prefix(runs: Seq<PayloadRun>, count: int)
    requires
        0 <= count <= runs.len(),
    ensures
        total_len(runs.take(count)) <= total_len(runs),
    decreases runs.len() - count,
{
    if count < runs.len() {
        lemma_total_len_prefix(runs, count + 1);
        assert(runs.take(count + 1).drop_last() =~= runs.take(count));
    } else {
        assert(runs.take(count) =~= runs);
    }
}

/// The delta entries of a batch.
fn batch_delta_entries(
    chunks: &Vec<BlockBatchChunk>,
    edits: &Vec<TreeRangeEdit>,
) -> (entries: Vec<BlockDeltaEntry>)
    requires
        chunks@.len() == edits@.len(),
        forall|i: int|
            0 <= i < edits@.len() ==> (#[trigger] edits@[i]).replacement is Some
                && edits@[i].replacement->0.segment_base.0 <= edits@[i].range.start.0
                && edits@[i].range == chunks@[i].chunk.range,
    ensures
        delta_edits(entries@) == edits@,
        forall|i: int|
            0 <= i < entries@.len() ==> (#[trigger] entries@[i]).shard_id
                == chunks@[i].chunk.shard_id,
{
    let mut entries: Vec<BlockDeltaEntry> = Vec::new();
    let mut i: usize = 0;
    while i < edits.len()
        invariant
            i <= edits@.len(),
            chunks@.len() == edits@.len(),
            forall|i: int|
                0 <= i < edits@.len() ==> (#[trigger] edits@[i]).replacement is Some
                    && edits@[i].replacement->0.segment_base.0 <= edits@[i].range.start.0
                    && edits@[i].range == chunks@[i].chunk.range,
            entries@.len() == i,
            forall|k: int| 0 <= k < i ==> delta_edit(#[trigger] entries@[k]) == edits@[k],
            forall|k: int|
                0 <= k < i ==> (#[trigger] entries@[k]).shard_id == chunks@[k].chunk.shard_id,
        decreases edits@.len() - i,
    {
        let edit = edits[i];
        assert(edits@[i as int].replacement is Some);
        if let Some(replacement) = edit.replacement {
            let entry = BlockDeltaEntry {
                shard_id: chunks[i].chunk.shard_id,
                range: edit.range,
                replacement: BlockDeltaReplacement::Segment {
                    segment_id: replacement.segment_id,
                    segment_offset: BlockIndex(edit.range.start.0 - replacement.segment_base.0),
                },
            };
            entries.push(entry);
        }
        i = i + 1;
    }
    assert(delta_edits(entries@) =~= edits@);
    entries
}

/// The bytes of a device after a batch was put into its trees.
proof fn lemma_batch_bytes(
    before: LocalCoordinator,
    middle: LocalCoordinator,
    after: LocalCoordinator,
    device_id: DeviceId,
    writes: Seq<BlockBatchWrite>,
    runs: Seq<PayloadRun>,
    chunks: Seq<BlockBatchChunk>,
    edits: Seq<TreeRangeEdit>,
    byte: int,
)
    requires
        before.wf(),
        before.metadata.has_device(device_id),
        middle.same_metadata(&before),
        keeps_segments(before.segments(), middle.segments()),
        keeps_segments(middle.segments(), after.segments()),
        after.config == before.config,
        after.device_edited(&middle, device_id, edits),
        batch_chunks_wf(
            before.nodes(),
            before.metadata.roots_of(device_id),
            chunks,
            runs,
            before.block_size(),
        ),
        forall|place: int| #[trigger] payload_at(runs, place) == batch_at(writes, place),
        edits.len() == chunks.len(),
        forall|i: int|
            0 <= i < edits.len() ==> edit_holds(
                middle.segments(),
                #[trigger] edits[i],
                chunks[i],
                before.block_size(),
            ),
        0 <= byte < before.device_bytes(device_id),
    ensures
        after.device_byte(device_id, byte) == byte_after_batch(
            writes,
            byte,
            before.device_byte(device_id, byte),
        ),
{
    let bs = before.block_size();
    let b = bs as int;
    let roots = before.metadata.roots_of(device_id);
    let block = byte / b;
    lemma_block_of_byte(byte, before.metadata.blocks_of(device_id), bs);
    let old_block = device_block_at(before.nodes(), roots, block);
    let new_block = device_block_at(after.nodes(), after.metadata.roots_of(device_id), block);
    assert(edit_outcome(edits, block, old_block, new_block));
    assert(payload_at(runs, byte) == batch_at(writes, byte));
    if batch_covers(chunks, block) {
        let i = choose|i: int|
            0 <= i < chunks.len() && (#[trigger] chunks[i]).chunk.range.contains(block);
        let chunk = chunks[i];
        assert(edit_holds(middle.segments(), edits[i], chunk, bs));
        let replacement = edits[i].replacement->0;
        assert(edits[i].range.contains(block));
        assert(new_block == edits[i].value_at(block));
        let id = replacement.segment_id.0;
        assert(middle.segments().contains_key(id));
        let start = chunk.chunk.range.start.0 as int;
        let base = replacement.segment_base.0 as int;
        let first = (start - base) * b;
        let place = chunk.place_of(bs, byte);
        lemma_byte_in_blocks(chunk.chunk.range, bs, byte);
        vstd::arithmetic::div_mod::lemma_fundamental_div_mod(byte, b);
        assert(first + place == (block - base) * b + byte % b) by (nonlinear_arith)
            requires
                first == (start - base) * b,
                place == byte - start * b,
                byte == b * block + byte % b,
        ;
        assert(middle.segments()[id].bytes@.subrange(first, first + chunk.bytes@.len())[place]
            == chunk.bytes@[place]);
        assert(payload_at(runs, byte) is Some);
    } else {
        assert(batch_at(writes, byte) is None);
        assert(!is_edited(edits, block)) by {
            if is_edited(edits, block) {
                let i = choose|i: int|
                    0 <= i < edits.len() && (#[trigger] edits[i]).range.contains(block);
                assert(edit_holds(middle.segments(), edits[i], chunks[i], bs));
                assert(chunks[i].chunk.range.contains(block));
            }
        }
        if old_block is Some {
            crate::backing::lemma_device_block_stored(
                before.nodes(),
                before.segments(),
                roots,
                block,
            );
            assert(before.segments().contains_key(old_block->0.segment_id.0));
            assert(middle.segments().contains_key(old_block->0.segment_id.0));
        }
    }
}

/// A chunk is stored under the policy of a write of the batch.
proof fn lemma_chunk_policies(
    nodes: Map<u128, MetadataNode>,
    roots: Seq<MetadataNodeId>,
    chunks: Seq<BlockBatchChunk>,
    runs: Seq<PayloadRun>,
    writes: Seq<BlockBatchWrite>,
    block_size: u64,
)
    requires
        block_size > 0,
        batch_chunks_wf(nodes, roots, chunks, runs, block_size),
        forall|place: int| #[trigger] payload_at(runs, place) == batch_at(writes, place),
    ensures
        chunk_policies(chunks).subset_of(batch_policies(writes)),
{
    assert forall|policy: PayloadIntegrity| chunk_policies(chunks).contains(
        policy,
    ) implies batch_policies(writes).contains(policy) by {
        let i = choose|i: int|
            0 <= i < chunks.len() && (#[trigger] chunks[i]).payload_integrity == policy;
        let start = chunks[i].chunk.range.start.0 as int;
        let byte = start * block_size;
        assert(chunk_in_shard(nodes, roots, chunks[i].chunk));
        vstd::arithmetic::div_mod::lemma_fundamental_div_mod_converse(
            byte,
            block_size as int,
            start,
            0,
        );
        assert(chunks[i].chunk.range.contains(byte / block_size as int));
        assert(payload_at(runs, byte) is Some);
        lemma_policy_of_write(writes, byte);
    }
}

/// What a batch writes at a place is written under the policy of one of its
/// writes.
proof fn lemma_policy_of_write(writes: Seq<BlockBatchWrite>, place: int)
    requires
        batch_at(writes, place) is Some,
    ensures
        batch_policies(writes).contains(batch_at(writes, place)->0.payload_integrity),
    decreases writes.len(),
{
    let last = writes.last();
    if last.offset <= place < last.offset + last.bytes@.len() {
        assert(writes[writes.len() - 1].payload_integrity == last.payload_integrity);
    } else {
        let fewer = writes.drop_last();
        lemma_policy_of_write(fewer, place);
        let policy = batch_at(writes, place)->0.payload_integrity;
        let i = choose|i: int|
            0 <= i < fewer.len() && (#[trigger] fewer[i]).payload_integrity == policy;
        assert(writes[i].payload_integrity == policy);
    }
}

/// Where a byte of a device is after a batch was put into its trees.
proof fn lemma_batch_block(
    before: LocalCoordinator,
    middle: LocalCoordinator,
    after: LocalCoordinator,
    device_id: DeviceId,
    writes: Seq<BlockBatchWrite>,
    runs: Seq<PayloadRun>,
    chunks: Seq<BlockBatchChunk>,
    edits: Seq<TreeRangeEdit>,
    receipts: Seq<SegmentWriteReceipt>,
    byte: int,
)
    requires
        before.wf(),
        before.metadata.has_device(device_id),
        middle.same_metadata(&before),
        segments_marked(middle.segments(), after.segments(), receipts),
        names_new(before.segments(), middle.segments(), receipts),
        after.config == before.config,
        after.device_edited(&middle, device_id, edits),
        batch_chunks_wf(
            before.nodes(),
            before.metadata.roots_of(device_id),
            chunks,
            runs,
            before.block_size(),
        ),
        forall|place: int| #[trigger] payload_at(runs, place) == batch_at(writes, place),
        edits.len() == chunks.len(),
        forall|i: int|
            0 <= i < edits.len() ==> edit_holds(
                middle.segments(),
                #[trigger] edits[i],
                chunks[i],
                before.block_size(),
            ),
        forall|i: int|
            0 <= i < edits.len() ==> (#[trigger] edits[i]).replacement->0.segment_id.0
                >= before.storage_nodes.next_segment_id && stored_as(
                middle.segments(),
                edits[i].replacement->0.segment_id.0,
                chunks[i].payload_integrity,
                before.block_size(),
                SegmentLifecycleState::DurablePendingMetadata,
            ),
        0 <= byte < before.device_bytes(device_id),
    ensures
        block_put(
            before.segments(),
            after.segments(),
            before.device_block(device_id, byte),
            after.device_block(device_id, byte),
            match batch_at(writes, byte) {
                Some(written) => Some(written.payload_integrity),
                None => None,
            },
            before.block_size(),
        ),
{
    let bs = before.block_size();
    let block = byte / bs as int;
    lemma_block_of_byte(byte, before.metadata.blocks_of(device_id), bs);
    let old_block = before.device_block(device_id, byte);
    let new_block = after.device_block(device_id, byte);
    assert(edit_outcome(edits, block, old_block, new_block));
    assert(payload_at(runs, byte) == batch_at(writes, byte));
    if batch_covers(chunks, block) {
        let i = choose|i: int|
            0 <= i < chunks.len() && (#[trigger] chunks[i]).chunk.range.contains(block);
        assert(edit_holds(middle.segments(), edits[i], chunks[i], bs));
        assert(edits[i].range.contains(block));
        assert(new_block == edits[i].value_at(block));
        let id = edits[i].replacement->0.segment_id.0;
        assert(payload_at(runs, byte) is Some);
        assert(middle.segments().contains_key(id));
        assert(!before.segments().contains_key(id));
        assert(named_by(receipts, id));
        assert(after.segments().dom().contains(id));
        assert(after.segments()[id] == referenced(middle.segments()[id]));
    } else {
        assert(batch_at(writes, byte) is None);
        assert(!is_edited(edits, block)) by {
            if is_edited(edits, block) {
                let i = choose|i: int|
                    0 <= i < edits.len() && (#[trigger] edits[i]).range.contains(block);
                assert(edit_holds(middle.segments(), edits[i], chunks[i], bs));
                assert(chunks[i].chunk.range.contains(block));
            }
        }
    }
}

impl LocalCoordinator {
    /// Notes that metadata refers to segments.
    pub(crate) fn mark_receipts_referenced(
        &mut self,
        receipts: &Vec<SegmentWriteReceipt>,
        commit_seq: CommitSeq,
    ) -> (result: Result<(), StorageError>)
        requires
            old(self).wf(),
        ensures
            final(self).wf(),
            receipts_usable(old(self).segments(), receipts@) ==> result is Ok,
            final(self).same_metadata(old(self)),
            final(self).next_write_intent == old(self).next_write_intent,
            final(self).observability == old(self).observability,
            final(self).storage_nodes.node_ids@ == old(self).storage_nodes.node_ids@,
            final(self).storage_nodes.next_segment_id == old(self).storage_nodes.next_segment_id,
            final(self).storage_nodes.next_offset == old(self).storage_nodes.next_offset,
            keeps_segments(old(self).segments(), final(self).segments()),
            keeps_segments(final(self).segments(), old(self).segments()),
            result is Ok ==> forall|i: int|
                0 <= i < receipts@.len() ==> final(self).segments().contains_key(
                    (#[trigger] receipts@[i]).segment_id.0,
                ) && final(self).segments()[receipts@[i].segment_id.0].entry.state
                    == SegmentLifecycleState::Referenced && final(self).segments()[receipts@[i].segment_id.0].entry.receipt
                    == Some(receipts@[i]),
            result is Ok ==> segments_marked(
                old(self).segments(),
                final(self).segments(),
                receipts@,
            ),
            result matches Err(error) ==> error is NotFound || error is Conflict,
    {
        let ghost before = *self;
        let ghost owed = receipts_usable(before.segments(), receipts@);
        let bs: u64 = self.config.block_size as u64;
        let mut i: usize = 0;
        proof {
            assert forall|id: u128| !named_by(receipts@.take(0), id) by {}
        }
        while i < receipts.len()
            invariant
                i <= receipts@.len(),
                before == *old(self),
                before.wf(),
                self.wf(),
                bs == self.block_size(),
                owed == receipts_usable(before.segments(), receipts@),
                owed ==> receipts_usable(self.segments(), receipts@),
                self.same_metadata(&before),
                self.next_write_intent == before.next_write_intent,
                self.observability == before.observability,
                self.storage_nodes.node_ids@ == before.storage_nodes.node_ids@,
                self.storage_nodes.next_segment_id == before.storage_nodes.next_segment_id,
                self.storage_nodes.next_offset == before.storage_nodes.next_offset,
                keeps_segments(before.segments(), self.segments()),
                keeps_segments(self.segments(), before.segments()),
                forall|k: int|
                    0 <= k < i ==> self.segments().contains_key(
                        (#[trigger] receipts@[k]).segment_id.0,
                    ) && self.segments()[receipts@[k].segment_id.0].entry.state
                        == SegmentLifecycleState::Referenced
                        && self.segments()[receipts@[k].segment_id.0].entry.receipt == Some(
                        receipts@[k],
                    ),
                segments_marked(before.segments(), self.segments(), receipts@.take(i as int)),
            decreases receipts@.len() - i,
        {
            let ghost segments = self.segments();
            let receipt = receipts[i];
            assert(receipts@[i as int] == receipt);
            match self.storage_nodes.mark_segment_referenced(&receipt, commit_seq, bs) {
                Ok(()) => {},
                Err(error) => return Err(error),
            }
            proof {
                let after = self.segments();
                lemma_tree_backed_kept(self.nodes(), segments, after);
                if owed {
                    assert forall|k: int| 0 <= k < receipts@.len() implies after.contains_key(
                        (#[trigger] receipts@[k]).segment_id.0,
                    ) && after[receipts@[k].segment_id.0].entry.receipt == Some(receipts@[k]) && (
                    after[receipts@[k].segment_id.0].entry.state
                        == SegmentLifecycleState::DurablePendingMetadata
                        || after[receipts@[k].segment_id.0].entry.state
                        == SegmentLifecycleState::Referenced) by {
                        assert(segments.contains_key(receipts@[k].segment_id.0));
                    }
                }
                assert forall|k: int| 0 <= k < i + 1 implies after.contains_key(
                    (#[trigger] receipts@[k]).segment_id.0,
                ) && after[receipts@[k].segment_id.0].entry.state
                    == SegmentLifecycleState::Referenced
                    && after[receipts@[k].segment_id.0].entry.receipt == Some(receipts@[k]) by {
                    assert(segments.contains_key(receipts@[k].segment_id.0));
                }
                lemma_one_more_marked(before.segments(), segments, after, receipts@, i as int);
                assert forall|id: u128| #[trigger] before.segments().contains_key(id) implies
                    after.contains_key(id) && after[id].bytes@ == before.segments()[id].bytes@
                    && after[id].storage_node == before.segments()[id].storage_node
                    && after[id].entry.receipt == before.segments()[id].entry.receipt by {
                    assert(segments.contains_key(id));
                }
                assert forall|id: u128| #[trigger] after.contains_key(id) implies
                    before.segments().contains_key(id) && before.segments()[id].bytes@
                    == after[id].bytes@ && before.segments()[id].storage_node
                    == after[id].storage_node && before.segments()[id].entry.receipt
                    == after[id].entry.receipt by {
                    assert(segments.contains_key(id));
                }
            }
            i = i + 1;
        }
        assert(receipts@.take(i as int) =~= receipts@);
        Ok(())
    }

    /// The segment block that holds a byte of a device, if one does.
    pub open spec fn device_block(&self, device_id: DeviceId, byte: int) -> Option<SegmentBlock> {
        device_block_at(
            self.nodes(),
            self.metadata.roots_of(device_id),
            byte / self.block_size() as int,
        )
    }

    /// Whether the bytes of a batch are in new segments that are referred to, each
    /// checked as the write that put it there asks, and every other byte is where
    /// it was.
    pub open spec fn batch_stored(
        &self,
        before: &LocalCoordinator,
        device_id: DeviceId,
        writes: Seq<BlockBatchWrite>,
    ) -> bool {
        forall|byte: int|
            0 <= byte < before.device_bytes(device_id) ==> block_put(
                before.segments(),
                self.segments(),
                before.device_block(device_id, byte),
                #[trigger] self.device_block(device_id, byte),
                match batch_at(writes, byte) {
                    Some(written) => Some(written.payload_integrity),
                    None => None,
                },
                self.block_size(),
            )
    }

    /// Whether each entry of a delta names the shard that holds its range.
    pub open spec fn entries_in_shards(
        &self,
        device_id: DeviceId,
        entries: Seq<BlockDeltaEntry>,
    ) -> bool {
        let roots = self.metadata.roots_of(device_id);
        forall|i: int|
            0 <= i < entries.len() ==> {
                let shard = (#[trigger] entries[i]).shard_id.0 as int;
                &&& shard < roots.len()
                &&& self.nodes()[roots[shard].0].covered_range.start.0 <= entries[i].range.start.0
                &&& entries[i].range.end() <= self.nodes()[roots[shard].0].covered_range.end()
            }
    }

    /// Whether a batch writes to so many places that it is refused.
    pub open spec fn batch_too_large(writes: Seq<BlockBatchWrite>) -> bool {
        batch_places(writes).len() > DEFAULT_BLOCK_BATCH_MAX_BYTES
    }

    /// Writes a batch to a device in one commit.
    #[verifier::rlimit(80)]
    pub fn commit_block_batch_with_delta(
        &mut self,
        device_id: DeviceId,
        writes: &[BlockBatchWrite],
        durability: WriteDurability,
    ) -> (result: Result<BlockBatchCommitWithDelta, StorageError>)
        requires
            old(self).wf(),
        ensures
            final(self).wf(),
            final(self).keeps_store(old(self)),
            final(self).block_writer_epochs == old(self).block_writer_epochs,
            final(self).metadata.same_outside_devices(&old(self).metadata),
            final(self).metadata.device_specs == old(self).metadata.device_specs,
            final(self).metadata.device_heads@.dom() == old(self).metadata.device_heads@.dom(),
            final(self).other_devices_kept(old(self), device_id),
            final(self).metadata.past_kept(&old(self).metadata),
            whole_blocks(old(self).segments(), old(self).block_size()) ==> whole_blocks(
                final(self).segments(),
                final(self).block_size(),
            ),
            result is Ok ==> old(self).metadata.has_device(device_id) && batch_valid(
                writes@,
                old(self).metadata.device_specs@[device_id.0],
            ),
            result is Ok ==> forall|byte: int|
                0 <= byte < old(self).device_bytes(device_id) ==> #[trigger] final(self).device_byte(
                    device_id,
                    byte,
                ) == byte_after_batch(writes@, byte, old(self).device_byte(device_id, byte)),
            final(self).moved_within(old(self), old(self).device_bytes(device_id)),
            final(self).append_run_logs == old(self).append_run_logs,
            final(self).append_stream_storage_lanes == old(self).append_stream_storage_lanes,
            final(self).next_extent_id == old(self).next_extent_id,
            final(self).storage_nodes.node_ids@ == old(self).storage_nodes.node_ids@,
            final(self).read_profiler == old(self).read_profiler,
            final(self).native_file_batch_profiler == old(self).native_file_batch_profiler,
            result matches Ok(committed) ==> {
                &&& committed.commit.device_id == device_id
                &&& committed.commit.write_count == writes@.len()
                &&& committed.commit.durability == durability
                &&& committed.commit.commit_seq
                    == final(self).metadata.device_heads@[device_id.0].latest_commit
                &&& committed.commit.commit_seq.0 == old(self).metadata.next_commit_seq
                &&& committed.commit.commit_seq.0 > old(
                    self,
                ).metadata.device_heads@[device_id.0].latest_commit.0
                &&& final(self).metadata.next_commit_seq == old(self).metadata.next_commit_seq + 1
                &&& final(self).metadata.device_heads@[device_id.0].generation == old(
                    self,
                ).metadata.device_heads@[device_id.0].generation
                &&& batch_counted(committed.commit, writes@)
                &&& committed.delta is Some
                &&& (committed.delta matches Some(delta) ==> {
                    &&& delta.device_id == device_id
                    &&& delta.commit_seq == committed.commit.commit_seq
                    &&& delta.commit_seq.0 == old(self).metadata.next_commit_seq
                    &&& delta.write_count == committed.commit.write_count
                    &&& delta.collapsed_range_count == committed.commit.collapsed_range_count
                    &&& delta.committed_bytes == committed.commit.committed_bytes
                    &&& delta.entries@.len() > 0
                    &&& old(self).entries_in_shards(device_id, delta.entries@)
                    &&& final(self).device_edited(
                        old(self),
                        device_id,
                        delta_edits(delta.entries@),
                    )
                })
            },
            result is Err ==> final(self).metadata.device_heads == old(self).metadata.device_heads,
            result is Err ==> !old(self).metadata.has_device(device_id) || !batch_valid(
                writes@,
                old(self).metadata.device_specs@[device_id.0],
            ) || LocalCoordinator::batch_too_large(writes@) || !old(
                self,
            ).room_for(old(self).device_bytes(device_id)),
            !old(self).metadata.has_device(device_id) ==> (result matches Err(error)
                && error is NotFound),
            old(self).metadata.has_device(device_id) && (!batch_valid(
                writes@,
                old(self).metadata.device_specs@[device_id.0],
            ) || LocalCoordinator::batch_too_large(writes@)) ==> (result matches Err(error)
                && error is InvalidArgument) && *final(self) == *old(self),
            result matches Ok(committed) ==> final(self).metadata.block_commit_recorded(
                &old(self).metadata,
                device_id,
                committed.commit.commit_seq,
            ),
            result is Ok ==> final(self).batch_stored(old(self), device_id, writes@),
            segments_added(
                old(self).segments(),
                final(self).segments(),
                batch_policies(writes@),
                old(self).block_size(),
                if result is Ok {
                    SegmentLifecycleState::Referenced
                } else {
                    SegmentLifecycleState::DurablePendingMetadata
                },
            ),
            result is Ok ==> write_counted(
                old(self).observability.counters,
                final(self).observability.counters,
                true,
            ),
    {
        let ghost before = *self;
        let bs: u64 = self.config.block_size as u64;
        let info = match self.device_info(device_id) {
            Ok(info) => info,
            Err(error) => return Err(error),
        };
        proof {
            assert(self.metadata.device_heads@.contains_key(device_id.0));
        }
        let runs = match collapse_block_batch_writes(
            writes,
            &info.spec,
            DEFAULT_BLOCK_BATCH_MAX_BYTES,
        ) {
            Ok(runs) => runs,
            Err(error) => return Err(error),
        };
        self.record_event(StorageEventKind::CoordinatorWriteStarted, None, None, None);
        let write_intent = match self.take_write_intent() {
            Ok(write_intent) => write_intent,
            Err(error) => return Err(error),
        };
        let ghost blocks = before.metadata.blocks_of(device_id);
        let ghost roots_then = before.metadata.roots_of(device_id);
        let (roots, generation) = match self.metadata.device_heads.get(device_id.raw()) {
            Some(head) => (crate::tree::copy_vec(&head.shard_roots), head.generation),
            None => return Err(StorageError::not_found("device", device_id.raw())),
        };
        let chunks = match chunk_block_batch(
            &self.metadata.trees,
            &roots,
            &runs,
            bs,
            Ghost(blocks),
        ) {
            Ok(chunks) => chunks,
            Err(error) => return Err(error),
        };
        let ghost started = *self;
        assert(chunks@.len() == chunks.len());
        let written = self.write_batch_segments(
            device_id,
            generation,
            &chunks,
            write_intent,
            durability,
            Ghost(roots_then),
            Ghost(runs@),
            Ghost(blocks),
        );
        let ghost middle = *self;
        proof {
            lemma_chunk_policies(before.nodes(), roots_then, chunks@, runs@, writes@, bs);
            lemma_added_under(
                before.segments(),
                middle.segments(),
                chunk_policies(chunks@),
                batch_policies(writes@),
                bs,
                SegmentLifecycleState::DurablePendingMetadata,
            );
        }
        let (edits, receipts) = match written {
            Ok(written) => written,
            Err(error) => return Err(error),
        };
        proof {
            lemma_batch_edits(before.nodes(), roots_then, chunks@, runs@, middle.segments(), edits@, bs);
        }
        let published = self.publish_device_edits(device_id, generation, &edits, false);
        let ghost published_state = *self;
        proof {
            assert forall|other: DeviceId| other != device_id implies #[trigger]
                published_state.device_kept(&before, other) by {
                assert(published_state.device_kept(&middle, other));
            }
        }
        let seq = match published {
            Ok(Some(seq)) => seq,
            Ok(None) => {
                proof {
                    lemma_batch_changes(
                        before,
                        middle,
                        *self,
                        device_id,
                        runs@,
                        chunks@,
                        edits@,
                    );
                }
                return Ok(
                    BlockBatchCommitWithDelta {
                        commit: BlockBatchCommit {
                            device_id,
                            commit_seq: info.latest_commit,
                            write_count: writes.len() as u64,
                            collapsed_range_count: runs.len() as u64,
                            committed_bytes: 0,
                            durability,
                        },
                        delta: None,
                    },
                );
            },
            Err(error) => return Err(error),
        };
        match self.mark_receipts_referenced(&receipts, seq) {
            Ok(()) => {},
            Err(error) => return Err(error),
        }
        let committed_bytes = total_len_of(&runs);
        let entries = batch_delta_entries(&chunks, &edits);
        proof {
            assert forall|byte: int|
                0 <= byte < before.device_bytes(device_id) implies #[trigger] self.device_byte(
                device_id,
                byte,
            ) == byte_after_batch(writes@, byte, before.device_byte(device_id, byte)) by {
                lemma_batch_bytes(
                    before,
                    middle,
                    *self,
                    device_id,
                    writes@,
                    runs@,
                    chunks@,
                    edits@,
                    byte,
                );
            }
            assert forall|id: u128| whole_blocks(before.segments(), bs)
                && #[trigger] self.segments().contains_key(id) implies self.segments()[id].bytes@.len()
                as int % bs as int == 0 by {
                assert(middle.segments().contains_key(id));
            }
            assert forall|other: DeviceId| other != device_id implies #[trigger] self.device_kept(
                &before,
                other,
            ) by {
                assert(published_state.device_kept(&before, other));
            }
            assert(total_len(runs@) == committed_bytes);
            lemma_chunk_policies(before.nodes(), roots_then, chunks@, runs@, writes@, bs);
            lemma_added_marked(
                before.segments(),
                middle.segments(),
                self.segments(),
                receipts@,
                chunk_policies(chunks@),
                bs,
            );
            lemma_added_under(
                before.segments(),
                self.segments(),
                chunk_policies(chunks@),
                batch_policies(writes@),
                bs,
                SegmentLifecycleState::Referenced,
            );
            assert forall|byte: int|
                0 <= byte < before.device_bytes(device_id) implies block_put(
                before.segments(),
                self.segments(),
                before.device_block(device_id, byte),
                #[trigger] self.device_block(device_id, byte),
                match batch_at(writes@, byte) {
                    Some(written) => Some(written.payload_integrity),
                    None => None,
                },
                bs,
            ) by {
                lemma_batch_block(
                    before,
                    middle,
                    *self,
                    device_id,
                    writes@,
                    runs@,
                    chunks@,
                    edits@,
                    receipts@,
                    byte,
                );
            }
            assert forall|i: int| 0 <= i < entries@.len() implies chunk_in_shard(
                before.nodes(),
                roots_then,
                (#[trigger] chunks@[i]).chunk,
            ) && entries@[i].range == chunks@[i].chunk.range by {
                assert(delta_edits(entries@)[i] == edits@[i]);
                assert(edit_holds(middle.segments(), edits@[i], chunks@[i], bs));
            }
            assert(before.entries_in_shards(device_id, entries@)) by {
                assert forall|i: int| 0 <= i < entries@.len() implies {
                    let shard = (#[trigger] entries@[i]).shard_id.0 as int;
                    &&& shard < roots_then.len()
                    &&& before.nodes()[roots_then[shard].0].covered_range.start.0
                        <= entries@[i].range.start.0
                    &&& entries@[i].range.end()
                        <= before.nodes()[roots_then[shard].0].covered_range.end()
                } by {
                    assert(chunk_in_shard(before.nodes(), roots_then, chunks@[i].chunk));
                }
            }
            lemma_batch_counted(writes@, runs@, bs);
            assert(entries@.len() == edits@.len());
            assert(self.device_edited(&before, device_id, edits@));
        }
        Ok(
            BlockBatchCommitWithDelta {
                commit: BlockBatchCommit {
                    device_id,
                    commit_seq: seq,
                    write_count: writes.len() as u64,
                    collapsed_range_count: runs.len() as u64,
                    committed_bytes,
                    durability,
                },
                delta: Some(
                    BlockDeltaCommit {
                        device_id,
                        commit_seq: seq,
                        write_count: writes.len() as u64,
                        collapsed_range_count: runs.len() as u64,
                        committed_bytes,
                        entries,
                    },
                ),
            },
        )
    }
}

/// A batch always changes its device: it puts segments there that no tree led
/// to before.
proof fn lemma_batch_changes(
    before: LocalCoordinator,
    middle: LocalCoordinator,
    after: LocalCoordinator,
    device_id: DeviceId,
    runs: Seq<PayloadRun>,
    chunks: Seq<BlockBatchChunk>,
    edits: Seq<TreeRangeEdit>,
)
    requires
        before.wf(),
        before.metadata.has_device(device_id),
        middle.same_metadata(&before),
        after.device_edited(&middle, device_id, edits),
        payload_wf(runs, before.block_size()),
        runs.len() > 0,
        batch_chunks_wf(
            before.nodes(),
            before.metadata.roots_of(device_id),
            chunks,
            runs,
            before.block_size(),
        ),
        edits.len() == chunks.len(),
        forall|i: int|
            0 <= i < edits.len() ==> edit_holds(
                middle.segments(),
                #[trigger] edits[i],
                chunks[i],
                before.block_size(),
            ),
        forall|i: int|
            0 <= i < edits.len() ==> (#[trigger] edits[i]).replacement->0.segment_id.0
                >= before.storage_nodes.next_segment_id,
    ensures
        after.metadata != before.metadata,
{
    let bs = before.block_size();
    let roots = before.metadata.roots_of(device_id);
    let byte = runs[0].offset as int;
    crate::batch::lemma_payload_run(runs, bs, 0, byte);
    assert(payload_at(runs, byte) is Some);
    let block = byte / bs as int;
    assert(batch_covers(chunks, block));
    let i = choose|i: int|
        0 <= i < chunks.len() && (#[trigger] chunks[i]).chunk.range.contains(block);
    assert(edit_holds(middle.segments(), edits[i], chunks[i], bs));
    assert(chunk_in_shard(before.nodes(), roots, chunks[i].chunk));
    assert(edits[i].range.contains(block));
    assert(before.metadata.device_heads@.contains_key(device_id.0));
    let s = chunks[i].chunk.shard_id.0 as int;
    assert(before.nodes().contains_key(roots[s].0));
    let old_block = device_block_at(before.nodes(), roots, block);
    if after.metadata == before.metadata {
        assert(edit_outcome(edits, block, old_block, old_block));
        assert(old_block == edits[i].value_at(block));
        crate::backing::lemma_device_block_stored(before.nodes(), before.segments(), roots, block);
        assert(before.segments().contains_key(old_block->0.segment_id.0));
    }
}

/// The edits of a batch fit the device's shards.
proof fn lemma_batch_edits(
    nodes: Map<u128, MetadataNode>,
    roots: Seq<MetadataNodeId>,
    chunks: Seq<BlockBatchChunk>,
    runs: Seq<PayloadRun>,
    segments: Map<u128, SegmentRecord>,
    edits: Seq<TreeRangeEdit>,
    block_size: u64,
)
    requires
        batch_chunks_wf(nodes, roots, chunks, runs, block_size),
        edits.len() == chunks.len(),
        forall|i: int|
            0 <= i < edits.len() ==> edit_holds(
                segments,
                #[trigger] edits[i],
                chunks[i],
                block_size,
            ),
    ensures
        edits_apart(edits),
        bases_wf(edits),
        edits_in_shards(nodes, roots, edits),
        edits_backed(edits, segments),
{
    assert forall|i: int| 0 <= i < edits.len() implies (#[trigger] edits[i]).range.blocks.0 > 0
        && edits[i].range.end() <= u64::MAX by {
        assert(edit_holds(segments, edits[i], chunks[i], block_size));
        assert(chunk_in_shard(nodes, roots, chunks[i].chunk));
    }
    assert forall|i: int, j: int| 0 <= i < j < edits.len() implies (#[trigger] edits[i]).range.end()
        <= (#[trigger] edits[j]).range.start.0 || edits[j].range.end()
        <= edits[i].range.start.0 by {
        assert(edit_holds(segments, edits[i], chunks[i], block_size));
        assert(edit_holds(segments, edits[j], chunks[j], block_size));
        assert(chunks[i].chunk.range.end() <= chunks[j].chunk.range.start.0);
    }
    assert forall|i: int| 0 <= i < edits.len() implies exists|s: int|
        0 <= s < roots.len() && nodes[(#[trigger] roots[s]).0].covered_range.start.0 <= (
        #[trigger] edits[i]).range.start.0 && edits[i].range.end()
            <= nodes[roots[s].0].covered_range.end() by {
        assert(edit_holds(segments, edits[i], chunks[i], block_size));
        assert(chunk_in_shard(nodes, roots, chunks[i].chunk));
        let s = chunks[i].chunk.shard_id.0 as int;
        assert(roots[s] == chunks[i].chunk.old_root);
    }
    assert forall|i: int| 0 <= i < edits.len() implies ((
    #[trigger] edits[i]).replacement matches Some(replacement) ==> replacement.segment_base.0
        <= edits[i].range.start.0) by {
        assert(edit_holds(segments, edits[i], chunks[i], block_size));
    }
    assert forall|i: int| 0 <= i < edits.len() implies (#[trigger] edits[i]).backed(segments) by {
        assert(edit_holds(segments, edits[i], chunks[i], block_size));
    }
}

} // verus!
