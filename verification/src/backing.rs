//! What the trees refer to is stored.
use vstd::prelude::*;

use crate::coordinator::{segment_byte, LocalCoordinator};
use crate::device_trees::{device_block_at, shard_at};
use crate::file_read::tree_byte;
use crate::id::{DeviceId, FileId, KeyspaceId, MetadataNodeId};
use crate::leaf::{extent_at, extents_wf, leaf_at, LogByte, SegmentBlock};
use crate::metadata_records::{LeafEntry, MetadataNode, MetadataNodeKind, RunBackedFileExtent};
use crate::read_plan::{
    node_runs_backed, run_backed, runs_backed, tree_runs_backed, RunLogMap,
};
use crate::ranges::blocks_covering;
use crate::storage_nodes::{entry_backed, keeps_segments, record_wf, SegmentRecord};
use crate::tree::{block_at, child_index, node_backed, node_wf, run_at, tree_backed, tree_wf};

verus! {

/// Whether a segment block is stored.
pub open spec fn block_stored(segments: Map<u128, SegmentRecord>, held: SegmentBlock) -> bool {
    &&& segments.contains_key(held.segment_id.0)
    &&& segments[held.segment_id.0].entry.receipt is Some
    &&& 0 <= held.offset < segments[held.segment_id.0].entry.receipt->0.descriptor.blocks.0
}

proof fn lemma_leaf_stored(
    segments: Map<u128, SegmentRecord>,
    entries: Seq<LeafEntry>,
    block: int,
)
    requires
        forall|i: int| 0 <= i < entries.len() ==> entry_backed(segments, #[trigger] entries[i]),
        leaf_at(entries, block) is Some,
    ensures
        block_stored(segments, leaf_at(entries, block)->0),
    decreases entries.len(),
{
    let last = entries.last();
    assert(entries[entries.len() - 1] == last);
    if !last.range().contains(block) {
        assert forall|i: int| 0 <= i < entries.drop_last().len() implies entry_backed(
            segments,
            #[trigger] entries.drop_last()[i],
        ) by {
            assert(entry_backed(segments, entries[i]));
        }
        lemma_leaf_stored(segments, entries.drop_last(), block);
    }
}

/// A block that a tree refers to is stored.
pub proof fn lemma_block_stored(
    nodes: Map<u128, MetadataNode>,
    segments: Map<u128, SegmentRecord>,
    id: u128,
    block: int,
)
    requires
        tree_backed(nodes, segments),
        block_at(nodes, id, block) is Some,
    ensures
        block_stored(segments, block_at(nodes, id, block)->0),
    decreases id,
{
    assert(node_backed(nodes[id], segments));
    match nodes[id].kind {
        MetadataNodeKind::Leaf { entries, .. } => {
            lemma_leaf_stored(segments, entries@, block);
        },
        MetadataNodeKind::Internal { children } => {
            let child = children@[child_index(children@, block)];
            lemma_block_stored(nodes, segments, child.node_id.0, block);
        },
    }
}

/// A block that a device has is stored.
pub proof fn lemma_device_block_stored(
    nodes: Map<u128, MetadataNode>,
    segments: Map<u128, SegmentRecord>,
    roots: Seq<MetadataNodeId>,
    block: int,
)
    requires
        tree_backed(nodes, segments),
        device_block_at(nodes, roots, block) is Some,
    ensures
        block_stored(segments, device_block_at(nodes, roots, block)->0),
{
    lemma_block_stored(nodes, segments, roots[shard_at(nodes, roots, block)].0, block);
}

/// Segments that are only added to leave the stored bytes as they are.
pub proof fn lemma_stored_byte_kept(
    before: Map<u128, SegmentRecord>,
    after: Map<u128, SegmentRecord>,
    block: Option<SegmentBlock>,
    block_size: u64,
    byte: int,
)
    requires
        keeps_segments(before, after),
        block matches Some(held) ==> block_stored(before, held),
    ensures
        segment_byte(after, block, block_size, byte) == segment_byte(
            before,
            block,
            block_size,
            byte,
        ),
{
    if let Some(held) = block {
        assert(before.contains_key(held.segment_id.0));
    }
}

/// In a segment of whole blocks, a stored block lies inside the bytes.
pub proof fn lemma_whole_block_inside(
    segments: Map<u128, SegmentRecord>,
    held: SegmentBlock,
    block_size: u64,
    rest: int,
)
    requires
        block_size > 0,
        block_stored(segments, held),
        record_wf(segments[held.segment_id.0], held.segment_id.0, block_size),
        segments[held.segment_id.0].bytes@.len() as int % block_size as int == 0,
        0 <= rest < block_size,
    ensures
        0 <= held.offset * block_size + rest < segments[held.segment_id.0].bytes@.len(),
{
    let len = segments[held.segment_id.0].bytes@.len() as int;
    let b = block_size as int;
    let q = len / b;
    vstd::arithmetic::div_mod::lemma_fundamental_div_mod(len, b);
    assert(blocks_covering(len, b) == q) by {
        vstd::arithmetic::div_mod::lemma_fundamental_div_mod_converse(len + b - 1, b, q, b - 1);
    }
    assert(held.offset < q);
    assert(0 <= held.offset * b + rest < len) by (nonlinear_arith)
        requires
            len == b * q,
            0 <= held.offset < q,
            0 <= rest < b,
    ;
}

proof fn lemma_extent_logged(
    logs: RunLogMap,
    extents: Seq<RunBackedFileExtent>,
    low: int,
    high: int,
    byte: int,
)
    requires
        extents_wf(extents, low, high),
        runs_backed(logs, extents),
        extent_at(extents, byte) is Some,
    ensures
        byte_logged(logs, extent_at(extents, byte)->0),
    decreases extents.len(),
{
    let last = extents.last();
    assert(extents[extents.len() - 1] == last);
    assert(last.wf());
    assert(run_backed(logs, last));
    if !last.range().contains(byte) {
        let shorter = extents.drop_last();
        assert forall|i: int| 0 <= i < shorter.len() implies run_backed(
            logs,
            #[trigger] shorter[i],
        ) by {
            assert(run_backed(logs, extents[i]));
        }
        assert(extents_wf(shorter, low, high));
        lemma_extent_logged(logs, shorter, low, high, byte);
    }
}

/// Whether a byte is in the run logs.
pub open spec fn byte_logged(logs: RunLogMap, logged: LogByte) -> bool {
    &&& logs.contains_key((logged.storage_node, logged.log_id))
    &&& 0 <= logged.offset < logs[(logged.storage_node, logged.log_id)].len()
}

/// A run's byte that a tree refers to is in the logs.
pub proof fn lemma_run_logged(
    nodes: Map<u128, MetadataNode>,
    logs: RunLogMap,
    id: u128,
    block_size: u64,
    byte: int,
)
    requires
        tree_wf(nodes, block_size),
        tree_runs_backed(nodes, logs),
        run_at(nodes, id, block_size, byte) is Some,
    ensures
        byte_logged(logs, run_at(nodes, id, block_size, byte)->0),
    decreases id,
{
    assert(node_wf(nodes, id, block_size));
    assert(node_runs_backed(nodes[id], logs));
    match nodes[id].kind {
        MetadataNodeKind::Leaf { run_extents, .. } => {
            lemma_extent_logged(
                logs,
                run_extents@,
                nodes[id].covered_range.start.0 * block_size,
                nodes[id].covered_range.end() * block_size,
                byte,
            );
        },
        MetadataNodeKind::Internal { children } => {
            let child = children@[child_index(children@, byte / block_size as int)];
            lemma_run_logged(nodes, logs, child.node_id.0, block_size, byte);
        },
    }
}

/// What a tree leads to stays while nodes, segments and logs are only added.
pub proof fn lemma_tree_byte_kept(
    before: LocalCoordinator,
    after: LocalCoordinator,
    root: MetadataNodeId,
    byte: int,
)
    requires
        before.wf(),
        after.keeps_store(&before),
        before.nodes().contains_key(root.0),
    ensures
        tree_byte(
            after.nodes(),
            after.segments(),
            after.logs(),
            root,
            after.block_size(),
            byte,
        ) == tree_byte(
            before.nodes(),
            before.segments(),
            before.logs(),
            root,
            before.block_size(),
            byte,
        ),
{
    let bs = before.block_size();
    crate::tree::law_trees_are_immutable(before.nodes(), after.nodes(), bs, root.0);
    let logged = run_at(before.nodes(), root.0, bs, byte);
    let block = block_at(before.nodes(), root.0, byte / bs as int);
    assert(run_at(after.nodes(), root.0, bs, byte) == logged);
    assert(block_at(after.nodes(), root.0, byte / bs as int) == block);
    if let Some(place) = logged {
        lemma_run_logged(before.nodes(), before.logs(), root.0, bs, byte);
        let key = (place.storage_node, place.log_id);
        assert(before.logs().contains_key(key));
    } else {
        if block is Some {
            lemma_block_stored(before.nodes(), before.segments(), root.0, byte / bs as int);
        }
        lemma_stored_byte_kept(before.segments(), after.segments(), block, bs, byte);
    }
}

impl LocalCoordinator {
    /// A request that keeps what is stored leaves the bytes of every file that it
    /// does not touch.
    pub proof fn lemma_file_bytes_kept(
        &self,
        before: &LocalCoordinator,
        keyspace_id: KeyspaceId,
        file_id: FileId,
    )
        requires
            before.wf(),
            self.keeps_store(before),
            before.metadata.has_file(keyspace_id, file_id),
            self.metadata.file_head(keyspace_id, file_id) == before.metadata.file_head(
                keyspace_id,
                file_id,
            ),
        ensures
            forall|byte: int| #[trigger]
                self.file_byte(keyspace_id, file_id, byte) == before.file_byte(
                    keyspace_id,
                    file_id,
                    byte,
                ),
            self.file_limit(keyspace_id, file_id) == before.file_limit(keyspace_id, file_id),
            before.clean_tail(keyspace_id, file_id) ==> self.clean_tail(keyspace_id, file_id),
    {
        before.metadata.lemma_file_wf(keyspace_id, file_id, before.block_size());
        let root = before.metadata.file_head(keyspace_id, file_id)->0.root;
        assert(before.nodes().contains_key(root.0));
        assert forall|byte: int| #[trigger] self.file_byte(keyspace_id, file_id, byte)
            == before.file_byte(keyspace_id, file_id, byte) by {
            lemma_tree_byte_kept(*before, *self, root, byte);
        }
        if before.clean_tail(keyspace_id, file_id) {
            assert forall|byte: int|
                self.file_size(keyspace_id, file_id) <= byte < self.file_limit(
                    keyspace_id,
                    file_id,
                ) implies #[trigger] self.file_byte(keyspace_id, file_id, byte) == 0 by {
                assert(before.file_byte(keyspace_id, file_id, byte) == 0);
            }
        }
    }

    /// A request that keeps what is stored leaves the bytes of every device that
    /// it does not touch.
    pub proof fn lemma_device_bytes_kept(
        &self,
        before: &LocalCoordinator,
        device_id: DeviceId,
        byte: int,
    )
        requires
            before.wf(),
            self.keeps_store(before),
            before.metadata.has_device(device_id),
            self.device_kept(before, device_id),
            0 <= byte < before.device_bytes(device_id),
        ensures
            self.device_byte(device_id, byte) == before.device_byte(device_id, byte),
    {
        let bs = before.block_size();
        let roots = before.metadata.roots_of(device_id);
        let blocks = before.metadata.blocks_of(device_id);
        assert(before.metadata.device_heads@.contains_key(device_id.0));
        crate::coordinator::lemma_block_of_byte(byte, blocks, bs);
        crate::device_trees::lemma_device_frame(
            before.nodes(),
            self.nodes(),
            bs,
            roots,
            blocks,
        );
        let block = device_block_at(before.nodes(), roots, byte / bs as int);
        assert(device_block_at(self.nodes(), roots, byte / bs as int) == block);
        if block is Some {
            lemma_device_block_stored(before.nodes(), before.segments(), roots, byte / bs as int);
        }
        lemma_stored_byte_kept(before.segments(), self.segments(), block, bs, byte);
    }
}

} // verus!
