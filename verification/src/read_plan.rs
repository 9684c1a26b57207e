//! Resolving reads of metadata trees to extents of segments and run logs.
use vstd::prelude::*;

use crate::block_api::{BlockRange, ByteRange, ReadVerification};
use crate::error::StorageError;
use crate::grants::{receipt_valid, verify_segment_receipt};
use crate::id::{MetadataNodeId, SegmentId, StorageNodeId};
use crate::idmap::IdMap;
use crate::integrity::{StorageNodeReadService, integrity_matches};
use crate::leaf::{LogByte, SegmentBlock, extent_at, extents_wf, leaf_at, leaf_wf, lemma_leaf_entry};
use crate::metadata_records::{
    LeafEntry, MetadataChild, MetadataNode, MetadataNodeKind, RunBackedFileExtent,
    SegmentPayloadIntegrity,
};
use crate::ranges::byte_range_intersection;
use crate::storage_nodes::SegmentRecord;
use crate::tree::{
    TreeStore, block_at, child_index, children_wf, has_child_at, lemma_child_unique, node_wf,
    run_at,
};
use crate::tree_edit::{lemma_byte_in_blocks, lemma_mul_le};

verus! {

/// Where the bytes of a read extent come from.
#[derive(Clone, Copy, Debug, PartialEq, Eq, Structural)]
pub enum ReadSource {
    Zero,
    Segment {
        storage_node: StorageNodeId,
        segment_id: SegmentId,
        segment_offset: u64,
        integrity: SegmentPayloadIntegrity,
    },
    AppendRun {
        storage_node: StorageNodeId,
        log_id: u64,
        payload_offset: u64,
        integrity: SegmentPayloadIntegrity,
    },
}

/// A part of a read's output and where it comes from.
#[derive(Clone, Copy, Debug, PartialEq, Eq, Structural)]
pub struct ReadExtent {
    pub output_offset: u64,
    pub len: u64,
    pub source: ReadSource,
}

/// One byte that a read asks for.
pub enum ReadByte {
    Zero,
    Stored { storage_node: StorageNodeId, segment_id: SegmentId, offset: int },
    Logged { storage_node: StorageNodeId, log_id: u64, offset: int },
}

impl ReadExtent {
    pub open spec fn contains(self, place: int) -> bool {
        self.output_offset <= place < self.output_offset + self.len
    }

    pub open spec fn byte_at(self, place: int) -> ReadByte {
        let i = place - self.output_offset;
        match self.source {
            ReadSource::Zero => ReadByte::Zero,
            ReadSource::Segment { storage_node, segment_id, segment_offset, .. } => {
                ReadByte::Stored { storage_node, segment_id, offset: segment_offset + i }
            },
            ReadSource::AppendRun { storage_node, log_id, payload_offset, .. } => {
                ReadByte::Logged { storage_node, log_id, offset: payload_offset + i }
            },
        }
    }

    /// Whether the extent is not empty, ends in the output and its source can
    /// be counted through.
    pub open spec fn wf(self, len: int) -> bool {
        &&& self.len > 0
        &&& self.output_offset + self.len <= len
        &&& match self.source {
            ReadSource::Zero => true,
            ReadSource::Segment { segment_offset, .. } => segment_offset + self.len <= u64::MAX,
            ReadSource::AppendRun { payload_offset, .. } => payload_offset + self.len <= u64::MAX,
        }
    }
}

/// The byte that the last extent at a place of the output has there.
pub open spec fn read_at(extents: Seq<ReadExtent>, place: int) -> Option<ReadByte>
    decreases extents.len(),
{
    if extents.len() == 0 {
        None
    } else if extents.last().contains(place) {
        Some(extents.last().byte_at(place))
    } else {
        read_at(extents.drop_last(), place)
    }
}

pub open spec fn read_extents_wf(extents: Seq<ReadExtent>, len: int) -> bool {
    forall|i: int| 0 <= i < extents.len() ==> (#[trigger] extents[i]).wf(len)
}

/// What run logs hold, by node and log.
pub type RunLogMap = Map<(StorageNodeId, u64), Seq<u8>>;

/// Whether an extent reads a part of a segment that is there.
pub open spec fn extent_stored(segments: Map<u128, SegmentRecord>, extent: ReadExtent) -> bool {
    match extent.source {
        ReadSource::Zero => true,
        ReadSource::Segment { storage_node, segment_id, segment_offset, integrity } => {
            &&& segments.contains_key(segment_id.0)
            &&& segments[segment_id.0].entry.receipt is Some
            &&& segments[segment_id.0].entry.receipt->0.storage_node == storage_node
            &&& segments[segment_id.0].entry.receipt->0.descriptor.integrity == integrity
            &&& segment_offset + extent.len
                <= segments[segment_id.0].entry.receipt->0.descriptor.bytes
        },
        ReadSource::AppendRun { .. } => false,
    }
}

pub open spec fn extents_stored(
    segments: Map<u128, SegmentRecord>,
    extents: Seq<ReadExtent>,
) -> bool {
    forall|i: int| 0 <= i < extents.len() ==> extent_stored(segments, #[trigger] extents[i])
}

/// Whether a part of a run log is there and has the checksum that is expected.
pub open spec fn log_part_backed(
    logs: RunLogMap,
    storage_node: StorageNodeId,
    log_id: u64,
    offset: int,
    len: int,
    integrity: SegmentPayloadIntegrity,
) -> bool {
    &&& logs.contains_key((storage_node, log_id))
    &&& offset + len <= logs[(storage_node, log_id)].len()
    &&& integrity_matches(integrity, logs[(storage_node, log_id)].subrange(offset, offset + len))
}

/// Whether an extent reads a part of a run log that is there.
pub open spec fn extent_logged(logs: RunLogMap, extent: ReadExtent) -> bool {
    match extent.source {
        ReadSource::Zero => true,
        ReadSource::Segment { .. } => false,
        ReadSource::AppendRun { storage_node, log_id, payload_offset, integrity } => {
            log_part_backed(
                logs,
                storage_node,
                log_id,
                payload_offset as int,
                extent.len as int,
                integrity,
            )
        },
    }
}

pub open spec fn extents_logged(logs: RunLogMap, extents: Seq<ReadExtent>) -> bool {
    forall|i: int| 0 <= i < extents.len() ==> extent_logged(logs, #[trigger] extents[i])
}

/// Whether a file's extent is in the run logs.
pub open spec fn run_backed(logs: RunLogMap, extent: RunBackedFileExtent) -> bool {
    log_part_backed(
        logs,
        extent.run.storage_node,
        extent.run.log_id,
        extent.run.log_payload_offset as int,
        extent.payload_len as int,
        extent.run.integrity,
    )
}

pub open spec fn runs_backed(logs: RunLogMap, extents: Seq<RunBackedFileExtent>) -> bool {
    forall|i: int| 0 <= i < extents.len() ==> run_backed(logs, #[trigger] extents[i])
}

pub open spec fn node_runs_backed(node: MetadataNode, logs: RunLogMap) -> bool {
    node.kind matches MetadataNodeKind::Leaf { run_extents, .. } ==> runs_backed(
        logs,
        run_extents@,
    )
}

/// Whether every run that the trees mention is in the run logs.
pub open spec fn tree_runs_backed(nodes: Map<u128, MetadataNode>, logs: RunLogMap) -> bool {
    forall|id: u128| #[trigger] nodes.contains_key(id) ==> node_runs_backed(nodes[id], logs)
}

/// Whether the runs of new trees are in the logs wherever those of the old ones
/// and the added ones are.
pub open spec fn keeps_runs_backed(
    before: Map<u128, MetadataNode>,
    after: Map<u128, MetadataNode>,
    added: Seq<RunBackedFileExtent>,
) -> bool {
    forall|logs: RunLogMap| #[trigger]
        tree_runs_backed(before, logs) && runs_backed(logs, added) ==> tree_runs_backed(after, logs)
}

pub proof fn lemma_read_push(extents: Seq<ReadExtent>, extent: ReadExtent, place: int)
    ensures
        read_at(extents.push(extent), place) == if extent.contains(place) {
            Some(extent.byte_at(place))
        } else {
            read_at(extents, place)
        },
{
    assert(extents.push(extent).drop_last() =~= extents);
}

/// The stored byte for a byte of a segment block.
pub open spec fn stored_byte_of(
    segments: Map<u128, SegmentRecord>,
    block: SegmentBlock,
    block_size: u64,
    byte: int,
) -> ReadByte {
    ReadByte::Stored {
        storage_node: segments[block.segment_id.0].entry.receipt->0.storage_node,
        segment_id: block.segment_id,
        offset: block.offset * block_size + byte % block_size as int,
    }
}

/// Whether a segment with a valid receipt reaches as far as a byte of one of
/// its blocks.
pub open spec fn segment_reaches(
    segments: Map<u128, SegmentRecord>,
    block: SegmentBlock,
    block_size: u64,
    byte: int,
) -> bool {
    &&& segments.contains_key(block.segment_id.0)
    &&& segments[block.segment_id.0].entry.receipt is Some
    &&& receipt_valid(segments[block.segment_id.0].entry.receipt->0)
    &&& segments[block.segment_id.0].entry.receipt->0.descriptor.bytes > block.offset * block_size
        + byte % block_size as int
}

proof fn lemma_entry_offset(entry: LeafEntry, block_size: u64, byte: int)
    requires
        block_size > 0,
        byte >= 0,
    ensures
        entry.block_at(byte / block_size as int).offset * block_size + byte % block_size as int
            == entry.segment_offset.0 * block_size + (byte - entry.logical_start.0 * block_size),
{
    let b = block_size as int;
    let q = byte / b;
    vstd::arithmetic::div_mod::lemma_fundamental_div_mod(byte, b);
    assert((entry.segment_offset.0 + (q - entry.logical_start.0)) * b + byte % b
        == entry.segment_offset.0 * b + (byte - entry.logical_start.0 * b)) by (nonlinear_arith)
        requires
            byte == b * q + byte % b,
    ;
}

/// Adds the part of a leaf entry that a read asks for.
pub fn collect_segment_entry_read_extent(
    segments: &IdMap<SegmentRecord>,
    entry: LeafEntry,
    requested: ByteRange,
    block_size: u64,
    out: &mut Vec<ReadExtent>,
    ids: Ghost<Set<u128>>,
) -> (result: Result<(), StorageError>)
    requires
        block_size > 0,
        entry.wf(),
        entry.range().end() * block_size <= u64::MAX,
        requested.end() <= u64::MAX,
        read_extents_wf(old(out)@, requested.len as int),
    ensures
        read_extents_wf(final(out)@, requested.len as int),
        extents_stored(segments@, old(out)@) ==> extents_stored(segments@, final(out)@),
        (forall|byte: int| #[trigger]
            requested.contains(byte) && entry.range().contains(byte / block_size as int)
                ==> ids@.contains(entry.segment_id.0)) && extents_stored(
            segments@.restrict(ids@),
            old(out)@,
        ) ==> extents_stored(segments@.restrict(ids@), final(out)@),
        result is Ok ==> forall|place: int|
            0 <= place < requested.len ==> #[trigger] read_at(final(out)@, place)
                == if entry.range().contains((requested.offset + place) / block_size as int) {
                Some(
                    stored_byte_of(
                        segments@,
                        entry.block_at((requested.offset + place) / block_size as int),
                        block_size,
                        requested.offset + place,
                    ),
                )
            } else {
                read_at(old(out)@, place)
            },
        (forall|byte: int| #[trigger]
            requested.contains(byte) && entry.range().contains(byte / block_size as int)
                ==> segment_reaches(
                segments@,
                entry.block_at(byte / block_size as int),
                block_size,
                byte,
            )) ==> result is Ok,
{
    let ghost before = out@;
    let ghost range = entry.range();
    proof {
        lemma_byte_in_blocks(range, block_size, 0);
        lemma_mul_le(range.start.0 as int, range.end(), block_size as int);
        lemma_mul_le(range.blocks.0 as int, range.end(), block_size as int);
    }
    let entry_start: u64 = entry.logical_start.0 * block_size;
    let entry_len: u64 = entry.blocks.0 * block_size;
    let entry_bytes = ByteRange { offset: entry_start, len: entry_len };
    let overlap = match byte_range_intersection(entry_bytes, requested) {
        Ok(Some(overlap)) => overlap,
        Ok(None) => {
            proof {
                assert forall|place: int| 0 <= place < requested.len implies !(
                #[trigger] range.contains((requested.offset + place) / block_size as int)) by {
                    let byte = requested.offset + place;
                    lemma_byte_in_blocks(range, block_size, byte);
                    assert(requested.contains(byte));
                    assert(!entry_bytes.contains(byte));
                }
            }
            return Ok(());
        },
        Err(error) => {
            assert(false);
            return Err(error);
        },
    };
    let ghost owed = forall|byte: int| #[trigger]
        requested.contains(byte) && entry.range().contains(byte / block_size as int)
            ==> segment_reaches(
            segments@,
            entry.block_at(byte / block_size as int),
            block_size,
            byte,
        );
    proof {
        let byte = overlap.end() - 1;
        assert(overlap.contains(byte));
        assert(requested.contains(byte));
        lemma_byte_in_blocks(range, block_size, byte);
        assert(entry_bytes.contains(byte));
        assert(entry.range().contains(byte / block_size as int));
        if owed {
            let byte = overlap.end() - 1;
            assert(overlap.contains(byte));
            assert(requested.contains(byte));
            lemma_byte_in_blocks(range, block_size, byte);
            assert(entry_bytes.contains(byte));
            assert(segment_reaches(
                segments@,
                entry.block_at(byte / block_size as int),
                block_size,
                byte,
            ));
            lemma_entry_offset(entry, block_size, byte);
        }
    }
    let segment_start: u64 = match entry.segment_offset.0.checked_mul(block_size) {
        Some(segment_start) => segment_start,
        None => return Err(StorageError::invalid_argument("segment byte start overflows")),
    };
    let segment_offset: u64 = match segment_start.checked_add(overlap.offset - entry_start) {
        Some(segment_offset) => segment_offset,
        None => return Err(StorageError::invalid_argument("segment read offset overflows")),
    };
    let segment_end: u64 = match segment_offset.checked_add(overlap.len) {
        Some(segment_end) => segment_end,
        None => return Err(StorageError::invalid_argument("segment read end overflows")),
    };
    let receipt = match segments.get(entry.segment_id.raw()) {
        Some(record) => match record.entry.receipt {
            Some(receipt) => receipt,
            None => return Err(StorageError::not_found("segment_receipt", entry.segment_id.raw())),
        },
        None => return Err(StorageError::not_found("segment", entry.segment_id.raw())),
    };
    match verify_segment_receipt(&receipt) {
        Ok(()) => {},
        Err(error) => return Err(error),
    }
    if segment_end > receipt.descriptor.bytes {
        return Err(StorageError::corrupt("metadata read extent exceeds segment descriptor"));
    }
    let extent = ReadExtent {
        output_offset: overlap.offset - requested.offset,
        len: overlap.len,
        source: ReadSource::Segment {
            storage_node: receipt.storage_node,
            segment_id: entry.segment_id,
            segment_offset,
            integrity: receipt.descriptor.integrity,
        },
    };
    out.push(extent);
    proof {
        assert(extent_stored(segments@, extent));
        assert forall|place: int| 0 <= place < requested.len implies #[trigger] read_at(out@, place)
            == (if range.contains((requested.offset + place) / block_size as int) {
            Some(
                stored_byte_of(
                    segments@,
                    entry.block_at((requested.offset + place) / block_size as int),
                    block_size,
                    requested.offset + place,
                ),
            )
        } else {
            read_at(before, place)
        }) by {
            let byte = requested.offset + place;
            lemma_read_push(before, extent, place);
            lemma_byte_in_blocks(range, block_size, byte);
            lemma_entry_offset(entry, block_size, byte);
            assert(overlap.contains(byte) <==> entry_bytes.contains(byte) && requested.contains(
                byte,
            ));
            assert(extent.contains(place) <==> overlap.contains(byte));
        }
    }
    Ok(())
}

/// What a tree adds to a read's output.
pub open spec fn segment_read(
    nodes: Map<u128, MetadataNode>,
    segments: Map<u128, SegmentRecord>,
    id: u128,
    block_size: u64,
    byte: int,
    below: Option<ReadByte>,
) -> Option<ReadByte> {
    let block = byte / block_size as int;
    if nodes[id].covered_range.contains(block) {
        match block_at(nodes, id, block) {
            Some(segment_block) => Some(
                stored_byte_of(segments, segment_block, block_size, byte),
            ),
            None => below,
        }
    } else {
        below
    }
}

/// Whether all segments that a read of a tree needs are there.
pub open spec fn tree_reaches(
    nodes: Map<u128, MetadataNode>,
    segments: Map<u128, SegmentRecord>,
    id: u128,
    block_size: u64,
    requested: ByteRange,
) -> bool {
    forall|byte: int| #[trigger]
        requested.contains(byte) && nodes[id].covered_range.contains(byte / block_size as int) ==> (
        block_at(nodes, id, byte / block_size as int) matches Some(segment_block)
            ==> segment_reaches(segments, segment_block, block_size, byte))
}

/// Whether a read of a tree reaches only some segments.
pub open spec fn tree_within(
    nodes: Map<u128, MetadataNode>,
    id: u128,
    block_size: u64,
    requested: ByteRange,
    ids: Set<u128>,
) -> bool {
    forall|byte: int| #[trigger]
        requested.contains(byte) && nodes[id].covered_range.contains(byte / block_size as int) ==> (
        block_at(nodes, id, byte / block_size as int) matches Some(segment_block) ==> ids.contains(
            segment_block.segment_id.0,
        ))
}

/// Adds the extents of segments that a read of a tree needs.
#[verifier::rlimit(40)]
pub fn collect_segment_read_extents_for_metadata_node(
    store: &TreeStore,
    segments: &IdMap<SegmentRecord>,
    node_id: MetadataNodeId,
    requested: ByteRange,
    block_size: u64,
    out: &mut Vec<ReadExtent>,
    ids: Ghost<Set<u128>>,
) -> (result: Result<(), StorageError>)
    requires
        store.wf(block_size),
        store.nodes@.contains_key(node_id.0),
        requested.end() <= u64::MAX,
        read_extents_wf(old(out)@, requested.len as int),
    ensures
        read_extents_wf(final(out)@, requested.len as int),
        extents_stored(segments@, old(out)@) ==> extents_stored(segments@, final(out)@),
        tree_within(store.nodes@, node_id.0, block_size, requested, ids@) && extents_stored(
            segments@.restrict(ids@),
            old(out)@,
        ) ==> extents_stored(segments@.restrict(ids@), final(out)@),
        result is Ok ==> forall|place: int|
            0 <= place < requested.len ==> #[trigger] read_at(final(out)@, place) == segment_read(
                store.nodes@,
                segments@,
                node_id.0,
                block_size,
                requested.offset + place,
                read_at(old(out)@, place),
            ),
        tree_reaches(store.nodes@, segments@, node_id.0, block_size, requested) ==> result is Ok,
    decreases node_id.0,
{
    let ghost nodes = store.nodes@;
    let ghost id = node_id.0;
    let ghost start = out@;
    assert(node_wf(nodes, id, block_size));
    let node = match store.nodes.get(node_id.raw()) {
        Some(node) => node,
        None => return Err(StorageError::not_found("metadata_node", node_id.raw())),
    };
    let ghost covered = node.covered_range;
    let ghost owed = tree_reaches(nodes, segments@, id, block_size, requested);
    let ghost within = tree_within(nodes, id, block_size, requested, ids@);
    let ghost part = segments@.restrict(ids@);
    match &node.kind {
        MetadataNodeKind::Internal { children } => {
            let mut i: usize = 0;
            while i < children.len()
                invariant
                    i <= children@.len(),
                    store.wf(block_size),
                    nodes == store.nodes@,
                    nodes.contains_key(id),
                    id == node_id.0,
                    nodes[id] == *node,
                    node.kind == (MetadataNodeKind::Internal { children: *children }),
                    covered == node.covered_range,
                    node_wf(nodes, id, block_size),
                    requested.end() <= u64::MAX,
                    owed == tree_reaches(nodes, segments@, id, block_size, requested),
                    read_extents_wf(out@, requested.len as int),
                    start == old(out)@,
                    extents_stored(segments@, start) ==> extents_stored(segments@, out@),
                    part == segments@.restrict(ids@),
                    within == tree_within(nodes, id, block_size, requested, ids@),
                    within && extents_stored(part, start) ==> extents_stored(part, out@),
                    forall|place: int|
                        0 <= place < requested.len ==> #[trigger] read_at(out@, place)
                            == partial_read(
                            nodes,
                            segments@,
                            id,
                            children@,
                            i as int,
                            block_size,
                            requested.offset + place,
                            read_at(start, place),
                        ),
                decreases children@.len() - i,
            {
                let child = children[i];
                let ghost before = out@;
                proof {
                    assert(children_wf(nodes, children@, covered, id));
                    assert(children@[i as int] == child);
                    assert(nodes.contains_key(child.node_id.0));
                    assert(node_wf(nodes, child.node_id.0, block_size));
                    lemma_mul_le(child.range.start.0 as int, child.range.end(), block_size as int);
                    lemma_mul_le(child.range.end(), covered.end(), block_size as int);
                    lemma_mul_le(child.range.start.0 as int, covered.end(), block_size as int);
                    assert(covered.end() <= u64::MAX) by (nonlinear_arith)
                        requires
                            covered.end() * block_size <= u64::MAX,
                            block_size >= 1,
                            covered.end() >= 0,
                    ;
                }
                let child_start: u64 = child.range.start.0 * block_size;
                let requested_end: u64 = requested.offset + requested.len;
                let child_end: u64 = (child.range.start.0 + child.range.blocks.0) * block_size;
                proof {
                    assert forall|byte: int| #[trigger] requested.contains(byte)
                        && child.range.contains(byte / block_size as int) implies block_at(
                        nodes,
                        id,
                        byte / block_size as int,
                    ) == block_at(nodes, child.node_id.0, byte / block_size as int)
                        && covered.contains(byte / block_size as int) by {
                        lemma_child_unique(
                            children@,
                            covered,
                            i as int,
                            byte / block_size as int,
                        );
                    }
                    if within {
                        assert forall|byte: int| #[trigger] requested.contains(byte)
                            && nodes[child.node_id.0].covered_range.contains(
                            byte / block_size as int,
                        ) implies (block_at(
                            nodes,
                            child.node_id.0,
                            byte / block_size as int,
                        ) matches Some(segment_block) ==> ids@.contains(
                            segment_block.segment_id.0,
                        )) by {
                            assert(child.range.contains(byte / block_size as int));
                        }
                        assert(tree_within(
                            nodes,
                            child.node_id.0,
                            block_size,
                            requested,
                            ids@,
                        ));
                    }
                    if owed {
                        assert forall|byte: int| #[trigger] requested.contains(byte)
                            && nodes[child.node_id.0].covered_range.contains(
                            byte / block_size as int,
                        ) implies (block_at(
                            nodes,
                            child.node_id.0,
                            byte / block_size as int,
                        ) matches Some(segment_block) ==> segment_reaches(
                            segments@,
                            segment_block,
                            block_size,
                            byte,
                        )) by {
                            assert(child.range.contains(byte / block_size as int));
                        }
                        assert(tree_reaches(
                            nodes,
                            segments@,
                            child.node_id.0,
                            block_size,
                            requested,
                        ));
                    }
                }
                if child_start < requested_end && requested.offset < child_end {
                    match collect_segment_read_extents_for_metadata_node(
                        store,
                        segments,
                        child.node_id,
                        requested,
                        block_size,
                        out,
                        ids,
                    ) {
                        Ok(()) => {},
                        Err(error) => return Err(error),
                    }
                    proof {
                        assert forall|place: int| 0 <= place < requested.len implies #[trigger]
                            read_at(out@, place) == partial_read(
                            nodes,
                            segments@,
                            id,
                            children@,
                            i + 1,
                            block_size,
                            requested.offset + place,
                            read_at(start, place),
                        ) by {
                            let byte = requested.offset + place;
                            assert(requested.contains(byte));
                            assert(read_at(before, place) == partial_read(
                                nodes,
                                segments@,
                                id,
                                children@,
                                i as int,
                                block_size,
                                byte,
                                read_at(start, place),
                            ));
                            lemma_partial_step(
                                nodes,
                                id,
                                children@,
                                covered,
                                i as int,
                                byte / block_size as int,
                            );
                        }
                    }
                } else {
                    proof {
                        assert forall|place: int| 0 <= place < requested.len implies #[trigger]
                            read_at(out@, place) == partial_read(
                            nodes,
                            segments@,
                            id,
                            children@,
                            i + 1,
                            block_size,
                            requested.offset + place,
                            read_at(start, place),
                        ) by {
                            let byte = requested.offset + place;
                            lemma_byte_in_blocks(child.range, block_size, byte);
                            lemma_partial_step(
                                nodes,
                                id,
                                children@,
                                covered,
                                i as int,
                                byte / block_size as int,
                            );
                        }
                    }
                }
                i = i + 1;
            }
            proof {
                assert forall|place: int| 0 <= place < requested.len implies #[trigger] read_at(
                    out@,
                    place,
                ) == segment_read(
                    nodes,
                    segments@,
                    id,
                    block_size,
                    requested.offset + place,
                    read_at(start, place),
                ) by {
                    let block = (requested.offset + place) / block_size as int;
                    if covered.contains(block) {
                        assert(has_child_at(children@, block));
                    }
                    if child_before(children@, children@.len() as int, block) {
                        let k = choose|k: int|
                            0 <= k < children@.len() && (#[trigger] children@[k]).range.contains(
                                block,
                            );
                        assert(covered.contains(block));
                    } else if covered.contains(block) {
                        let k = child_index(children@, block);
                        assert(children@[k].range.contains(block));
                    }
                }
            }
            Ok(())
        },
        MetadataNodeKind::Leaf { entries, .. } => {
            let mut i: usize = 0;
            assert(entries@.take(0) =~= Seq::<LeafEntry>::empty());
            while i < entries.len()
                invariant
                    i <= entries@.len(),
                    store.wf(block_size),
                    nodes == store.nodes@,
                    nodes.contains_key(id),
                    id == node_id.0,
                    nodes[id] == *node,
                    node.kind matches MetadataNodeKind::Leaf { entries: held, .. } && held
                        == *entries,
                    covered == node.covered_range,
                    node_wf(nodes, id, block_size),
                    requested.end() <= u64::MAX,
                    owed == tree_reaches(nodes, segments@, id, block_size, requested),
                    read_extents_wf(out@, requested.len as int),
                    start == old(out)@,
                    extents_stored(segments@, start) ==> extents_stored(segments@, out@),
                    part == segments@.restrict(ids@),
                    within == tree_within(nodes, id, block_size, requested, ids@),
                    within && extents_stored(part, start) ==> extents_stored(part, out@),
                    forall|place: int|
                        0 <= place < requested.len ==> #[trigger] read_at(out@, place)
                            == match leaf_at(
                            entries@.take(i as int),
                            (requested.offset + place) / block_size as int,
                        ) {
                            Some(segment_block) => Some(
                                stored_byte_of(
                                    segments@,
                                    segment_block,
                                    block_size,
                                    requested.offset + place,
                                ),
                            ),
                            None => read_at(start, place),
                        },
                decreases entries@.len() - i,
            {
                let entry = entries[i];
                let ghost before = out@;
                proof {
                    assert(leaf_wf(entries@, covered));
                    assert(entries@[i as int] == entry);
                    assert(entry.wf());
                    lemma_mul_le(entry.range().end(), covered.end(), block_size as int);
                    assert(entries@.take(i + 1).drop_last() =~= entries@.take(i as int));
                    if within {
                        assert forall|byte: int| #[trigger] requested.contains(byte)
                            && entry.range().contains(
                            byte / block_size as int,
                        ) implies ids@.contains(entry.segment_id.0) by {
                            lemma_leaf_entry(
                                entries@,
                                covered,
                                i as int,
                                byte / block_size as int,
                            );
                            assert(covered.contains(byte / block_size as int));
                        }
                    }
                    if owed {
                        assert forall|byte: int| #[trigger] requested.contains(byte)
                            && entry.range().contains(byte / block_size as int) implies segment_reaches(
                            segments@,
                            entry.block_at(byte / block_size as int),
                            block_size,
                            byte,
                        ) by {
                            lemma_leaf_entry(
                                entries@,
                                covered,
                                i as int,
                                byte / block_size as int,
                            );
                            assert(covered.contains(byte / block_size as int));
                        }
                    }
                }
                match collect_segment_entry_read_extent(
                    segments,
                    entry,
                    requested,
                    block_size,
                    out,
                    ids,
                ) {
                    Ok(()) => {},
                    Err(error) => return Err(error),
                }
                i = i + 1;
            }
            proof {
                assert(entries@.take(entries@.len() as int) =~= entries@);
                assert forall|place: int| 0 <= place < requested.len implies #[trigger] read_at(
                    out@,
                    place,
                ) == segment_read(
                    nodes,
                    segments@,
                    id,
                    block_size,
                    requested.offset + place,
                    read_at(start, place),
                ) by {
                    let block = (requested.offset + place) / block_size as int;
                    crate::leaf::lemma_leaf_none(entries@, block);
                    if leaf_at(entries@, block) is Some {
                        let k = choose|k: int|
                            0 <= k < entries@.len() && (#[trigger] entries@[k]).range().contains(
                                block,
                            );
                        assert(covered.contains(block));
                    }
                }
            }
            Ok(())
        },
    }
}

/// Whether one of the first `count` children covers a block.
spec fn child_before(children: Seq<MetadataChild>, count: int, block: int) -> bool {
    exists|k: int| 0 <= k < count && (#[trigger] children[k]).range.contains(block)
}

/// What the first `count` children of a node add to a read's output.
spec fn partial_read(
    nodes: Map<u128, MetadataNode>,
    segments: Map<u128, SegmentRecord>,
    id: u128,
    children: Seq<MetadataChild>,
    count: int,
    block_size: u64,
    byte: int,
    below: Option<ReadByte>,
) -> Option<ReadByte> {
    let block = byte / block_size as int;
    if child_before(children, count, block) {
        match block_at(nodes, id, block) {
            Some(segment_block) => Some(
                stored_byte_of(segments, segment_block, block_size, byte),
            ),
            None => below,
        }
    } else {
        below
    }
}

proof fn lemma_partial_step(
    nodes: Map<u128, MetadataNode>,
    id: u128,
    children: Seq<MetadataChild>,
    covered: BlockRange,
    i: int,
    block: int,
)
    requires
        children_wf(nodes, children, covered, id),
        0 <= i < children.len(),
    ensures
        child_before(children, i + 1, block) <==> child_before(children, i, block)
            || children[i].range.contains(block),
        children[i].range.contains(block) ==> !child_before(children, i, block),
{
    if child_before(children, i + 1, block) && !children[i].range.contains(block) {
        let k = choose|k: int| 0 <= k < i + 1 && (#[trigger] children[k]).range.contains(block);
        assert(k < i);
    }
    if child_before(children, i, block) {
        let k = choose|k: int| 0 <= k < i && (#[trigger] children[k]).range.contains(block);
        assert(k < i + 1);
        assert(children[k].range.end() <= children[i].range.start.0);
    }
}

/// What the runs of a tree add to a read's output.
pub open spec fn run_read(
    nodes: Map<u128, MetadataNode>,
    id: u128,
    block_size: u64,
    byte: int,
    below: Option<ReadByte>,
) -> Option<ReadByte> {
    if nodes[id].covered_range.contains(byte / block_size as int) {
        match run_at(nodes, id, block_size, byte) {
            Some(logged) => Some(logged_byte_of(logged)),
            None => below,
        }
    } else {
        below
    }
}

pub open spec fn logged_byte_of(logged: LogByte) -> ReadByte {
    ReadByte::Logged {
        storage_node: logged.storage_node,
        log_id: logged.log_id,
        offset: logged.offset,
    }
}

/// Adds the part of a run-backed extent that a read asks for.
pub fn collect_append_run_read_extent(
    extent: RunBackedFileExtent,
    requested: ByteRange,
    out: &mut Vec<ReadExtent>,
    logs: Ghost<RunLogMap>,
) -> (result: Result<(), StorageError>)
    requires
        extent.wf(),
        requested.end() <= u64::MAX,
        read_extents_wf(old(out)@, requested.len as int),
    ensures
        result is Ok,
        run_backed(logs@, extent) && extents_logged(logs@, old(out)@) ==> extents_logged(
            logs@,
            final(out)@,
        ),
        read_extents_wf(final(out)@, requested.len as int),
        forall|place: int|
            0 <= place < requested.len ==> #[trigger] read_at(final(out)@, place)
                == if extent.range().contains(requested.offset + place) {
                Some(logged_byte_of(extent.byte_at(requested.offset + place)))
            } else {
                read_at(old(out)@, place)
            },
{
    let ghost before = out@;
    let extent_range = ByteRange { offset: extent.file_offset_start, len: extent.payload_len };
    match byte_range_intersection(extent_range, requested) {
        Ok(Some(overlap)) => {
            let end: u64 = overlap.offset + overlap.len;
            match crate::leaf::slice_run_extent(&extent, overlap.offset, end) {
                Ok(Some(sliced)) => {
                    let read = ReadExtent {
                        output_offset: sliced.file_offset_start - requested.offset,
                        len: sliced.payload_len,
                        source: ReadSource::AppendRun {
                            storage_node: sliced.run.storage_node,
                            log_id: sliced.run.log_id,
                            payload_offset: sliced.run.log_payload_offset,
                            integrity: sliced.run.integrity,
                        },
                    };
                    out.push(read);
                    proof {
                        if run_backed(logs@, extent) {
                            lemma_slice_logged(logs@, extent, sliced, read);
                        }
                        assert forall|place: int| 0 <= place < requested.len implies #[trigger]
                            read_at(out@, place) == (if extent.range().contains(
                            requested.offset + place,
                        ) {
                            Some(logged_byte_of(extent.byte_at(requested.offset + place)))
                        } else {
                            read_at(before, place)
                        }) by {
                            let byte = requested.offset + place;
                            lemma_read_push(before, read, place);
                            assert(overlap.contains(byte) <==> extent.range().contains(byte)
                                && requested.contains(byte));
                            assert(sliced.byte_at(byte) == extent.byte_at(byte));
                            assert(read.contains(place) <==> overlap.contains(byte));
                        }
                    }
                    Ok(())
                },
                Ok(None) => {
                    assert(false);
                    Ok(())
                },
                Err(error) => {
                    assert(false);
                    Err(error)
                },
            }
        },
        Ok(None) => {
            proof {
                assert forall|place: int| 0 <= place < requested.len implies #[trigger] read_at(
                    out@,
                    place,
                ) == (if extent.range().contains(requested.offset + place) {
                    Some(logged_byte_of(extent.byte_at(requested.offset + place)))
                } else {
                    read_at(before, place)
                }) by {
                    assert(requested.contains(requested.offset + place));
                }
            }
            Ok(())
        },
        Err(error) => {
            assert(false);
            Err(error)
        },
    }
}

spec fn partial_run_read(
    nodes: Map<u128, MetadataNode>,
    id: u128,
    children: Seq<MetadataChild>,
    count: int,
    block_size: u64,
    byte: int,
    below: Option<ReadByte>,
) -> Option<ReadByte> {
    if child_before(children, count, byte / block_size as int) {
        match run_at(nodes, id, block_size, byte) {
            Some(logged) => Some(logged_byte_of(logged)),
            None => below,
        }
    } else {
        below
    }
}

/// A part of an extent that is in the logs is in the logs.
proof fn lemma_slice_logged(
    logs: RunLogMap,
    extent: RunBackedFileExtent,
    sliced: RunBackedFileExtent,
    read: ReadExtent,
)
    requires
        extent.wf(),
        sliced.wf(),
        run_backed(logs, extent),
        extent.file_offset_start <= sliced.file_offset_start,
        sliced.range().end() <= extent.range().end(),
        forall|byte: int| #[trigger] sliced.byte_at(byte) == extent.byte_at(byte),
        sliced == extent || sliced.run.integrity == SegmentPayloadIntegrity::Unchecked,
        read.len == sliced.payload_len,
        read.source == (ReadSource::AppendRun {
            storage_node: sliced.run.storage_node,
            log_id: sliced.run.log_id,
            payload_offset: sliced.run.log_payload_offset,
            integrity: sliced.run.integrity,
        }),
    ensures
        extent_logged(logs, read),
{
    let byte = sliced.file_offset_start as int;
    assert(sliced.byte_at(byte) == extent.byte_at(byte));
}

/// Adds the extents of run logs that a read of a tree needs.
#[verifier::rlimit(40)]
pub fn collect_append_run_read_extents_for_metadata_node(
    store: &TreeStore,
    node_id: MetadataNodeId,
    requested: ByteRange,
    block_size: u64,
    out: &mut Vec<ReadExtent>,
    logs: Ghost<RunLogMap>,
) -> (result: Result<(), StorageError>)
    requires
        store.wf(block_size),
        store.nodes@.contains_key(node_id.0),
        requested.end() <= u64::MAX,
        read_extents_wf(old(out)@, requested.len as int),
    ensures
        result is Ok,
        tree_runs_backed(store.nodes@, logs@) && extents_logged(logs@, old(out)@)
            ==> extents_logged(logs@, final(out)@),
        read_extents_wf(final(out)@, requested.len as int),
        forall|place: int|
            0 <= place < requested.len ==> #[trigger] read_at(final(out)@, place) == run_read(
                store.nodes@,
                node_id.0,
                block_size,
                requested.offset + place,
                read_at(old(out)@, place),
            ),
    decreases node_id.0,
{
    let ghost nodes = store.nodes@;
    let ghost id = node_id.0;
    let ghost start = out@;
    assert(node_wf(nodes, id, block_size));
    let node = match store.nodes.get(node_id.raw()) {
        Some(node) => node,
        None => return Err(StorageError::not_found("metadata_node", node_id.raw())),
    };
    let ghost covered = node.covered_range;
    match &node.kind {
        MetadataNodeKind::Internal { children } => {
            let mut i: usize = 0;
            while i < children.len()
                invariant
                    i <= children@.len(),
                    store.wf(block_size),
                    nodes == store.nodes@,
                    nodes.contains_key(id),
                    id == node_id.0,
                    nodes[id] == *node,
                    node.kind == (MetadataNodeKind::Internal { children: *children }),
                    covered == node.covered_range,
                    node_wf(nodes, id, block_size),
                    requested.end() <= u64::MAX,
                    read_extents_wf(out@, requested.len as int),
                    start == old(out)@,
                    tree_runs_backed(store.nodes@, logs@) && extents_logged(logs@, start)
                        ==> extents_logged(logs@, out@),
                    forall|place: int|
                        0 <= place < requested.len ==> #[trigger] read_at(out@, place)
                            == partial_run_read(
                            nodes,
                            id,
                            children@,
                            i as int,
                            block_size,
                            requested.offset + place,
                            read_at(start, place),
                        ),
                decreases children@.len() - i,
            {
                let child = children[i];
                let ghost before = out@;
                proof {
                    assert(children_wf(nodes, children@, covered, id));
                    assert(children@[i as int] == child);
                    assert(nodes.contains_key(child.node_id.0));
                    assert(node_wf(nodes, child.node_id.0, block_size));
                    lemma_mul_le(child.range.start.0 as int, child.range.end(), block_size as int);
                    lemma_mul_le(child.range.end(), covered.end(), block_size as int);
                    lemma_mul_le(child.range.start.0 as int, covered.end(), block_size as int);
                    assert(covered.end() <= u64::MAX) by (nonlinear_arith)
                        requires
                            covered.end() * block_size <= u64::MAX,
                            block_size >= 1,
                            covered.end() >= 0,
                    ;
                }
                let child_start: u64 = child.range.start.0 * block_size;
                let requested_end: u64 = requested.offset + requested.len;
                let child_end: u64 = (child.range.start.0 + child.range.blocks.0) * block_size;
                if child_start < requested_end && requested.offset < child_end {
                    match collect_append_run_read_extents_for_metadata_node(
                        store,
                        child.node_id,
                        requested,
                        block_size,
                        out,
                        logs,
                    ) {
                        Ok(()) => {},
                        Err(error) => return Err(error),
                    }
                    proof {
                        assert forall|place: int| 0 <= place < requested.len implies #[trigger]
                            read_at(out@, place) == partial_run_read(
                            nodes,
                            id,
                            children@,
                            i + 1,
                            block_size,
                            requested.offset + place,
                            read_at(start, place),
                        ) by {
                            let byte = requested.offset + place;
                            let block = byte / block_size as int;
                            assert(read_at(before, place) == partial_run_read(
                                nodes,
                                id,
                                children@,
                                i as int,
                                block_size,
                                byte,
                                read_at(start, place),
                            ));
                            lemma_partial_step(nodes, id, children@, covered, i as int, block);
                            if child.range.contains(block) {
                                lemma_child_unique(children@, covered, i as int, block);
                                assert(run_at(nodes, id, block_size, byte) == run_at(
                                    nodes,
                                    child.node_id.0,
                                    block_size,
                                    byte,
                                ));
                            }
                        }
                    }
                } else {
                    proof {
                        assert forall|place: int| 0 <= place < requested.len implies #[trigger]
                            read_at(out@, place) == partial_run_read(
                            nodes,
                            id,
                            children@,
                            i + 1,
                            block_size,
                            requested.offset + place,
                            read_at(start, place),
                        ) by {
                            let byte = requested.offset + place;
                            lemma_byte_in_blocks(child.range, block_size, byte);
                            lemma_partial_step(
                                nodes,
                                id,
                                children@,
                                covered,
                                i as int,
                                byte / block_size as int,
                            );
                        }
                    }
                }
                i = i + 1;
            }
            proof {
                assert forall|place: int| 0 <= place < requested.len implies #[trigger] read_at(
                    out@,
                    place,
                ) == run_read(
                    nodes,
                    id,
                    block_size,
                    requested.offset + place,
                    read_at(start, place),
                ) by {
                    let block = (requested.offset + place) / block_size as int;
                    if covered.contains(block) {
                        assert(has_child_at(children@, block));
                        let k = child_index(children@, block);
                        assert(children@[k].range.contains(block));
                    } else if child_before(children@, children@.len() as int, block) {
                        let k = choose|k: int|
                            0 <= k < children@.len() && (#[trigger] children@[k]).range.contains(
                                block,
                            );
                        assert(covered.contains(block));
                    }
                }
            }
            Ok(())
        },
        MetadataNodeKind::Leaf { run_extents, .. } => {
            let ghost low = covered.start.0 * block_size;
            let ghost high = covered.end() * block_size;
            let mut i: usize = 0;
            assert(run_extents@.take(0) =~= Seq::<RunBackedFileExtent>::empty());
            while i < run_extents.len()
                invariant
                    i <= run_extents@.len(),
                    extents_wf(run_extents@, low, high),
                    store.nodes@.contains_key(node_id.0),
                    store.nodes@[node_id.0].kind matches MetadataNodeKind::Leaf { run_extents: held, .. } && held == *run_extents,
                    requested.end() <= u64::MAX,
                    read_extents_wf(out@, requested.len as int),
                    start == old(out)@,
                    tree_runs_backed(store.nodes@, logs@) && extents_logged(logs@, start)
                        ==> extents_logged(logs@, out@),
                    forall|place: int|
                        0 <= place < requested.len ==> #[trigger] read_at(out@, place)
                            == match extent_at(
                            run_extents@.take(i as int),
                            requested.offset + place,
                        ) {
                            Some(logged) => Some(logged_byte_of(logged)),
                            None => read_at(start, place),
                        },
                decreases run_extents@.len() - i,
            {
                proof {
                    assert(run_extents@[i as int].wf());
                    if tree_runs_backed(store.nodes@, logs@) {
                        assert(node_runs_backed(store.nodes@[node_id.0], logs@));
                        assert(run_backed(logs@, run_extents@[i as int]));
                    }
                    assert(run_extents@.take(i + 1).drop_last() =~= run_extents@.take(i as int));
                }
                match collect_append_run_read_extent(run_extents[i], requested, out, logs) {
                    Ok(()) => {},
                    Err(error) => return Err(error),
                }
                i = i + 1;
            }
            proof {
                assert(run_extents@.take(run_extents@.len() as int) =~= run_extents@);
                assert forall|place: int| 0 <= place < requested.len implies #[trigger] read_at(
                    out@,
                    place,
                ) == run_read(
                    nodes,
                    id,
                    block_size,
                    requested.offset + place,
                    read_at(start, place),
                ) by {
                    let byte = requested.offset + place;
                    crate::leaf::lemma_extent_some(run_extents@, byte);
                    if extent_at(run_extents@, byte) is Some {
                        let k = choose|k: int|
                            0 <= k < run_extents@.len() && (
                            #[trigger] run_extents@[k]).range().contains(byte);
                        lemma_byte_in_blocks(covered, block_size, byte);
                    }
                }
            }
            Ok(())
        },
    }
}

/// A part of a read extent.
pub fn slice_read_extent(extent: &ReadExtent, output_offset: u64, len: u64) -> (result: Result<
    ReadExtent,
    StorageError,
>)
    ensures
        len == 0 ==> (result matches Err(error) && error is InvalidArgument),
        len > 0 && output_offset < extent.output_offset ==> result is Err,
        result matches Ok(part) ==> part.output_offset == output_offset && part.len == len && forall|
            place: int,
        | #[trigger]
            part.byte_at(place) == extent.byte_at(place),
        result matches Ok(part) ==> forall|segments: Map<u128, SegmentRecord>|
            output_offset + len <= extent.output_offset + extent.len && #[trigger] extent_stored(
                segments,
                *extent,
            ) ==> extent_stored(segments, part),
        forall|limit: int|
            len > 0 && #[trigger] extent.wf(limit) && extent.output_offset <= output_offset
                && output_offset + len <= extent.output_offset + extent.len ==> (result matches Ok(
                part,
            ) && part.wf(limit)),
{
    if len == 0 {
        return Err(StorageError::invalid_argument("read extent slice must not be empty"));
    }
    if output_offset < extent.output_offset {
        return Err(StorageError::corrupt("read extent slice precedes source extent"));
    }
    let delta: u64 = output_offset - extent.output_offset;
    let source = match extent.source {
        ReadSource::Zero => ReadSource::Zero,
        ReadSource::Segment { storage_node, segment_id, segment_offset, integrity } => {
            match segment_offset.checked_add(delta) {
                Some(segment_offset) => ReadSource::Segment {
                    storage_node,
                    segment_id,
                    segment_offset,
                    integrity,
                },
                None => return Err(
                    StorageError::corrupt("segment read extent slice offset overflows"),
                ),
            }
        },
        ReadSource::AppendRun { storage_node, log_id, payload_offset, integrity } => {
            match payload_offset.checked_add(delta) {
                Some(payload_offset) => ReadSource::AppendRun {
                    storage_node,
                    log_id,
                    payload_offset,
                    integrity,
                },
                None => return Err(
                    StorageError::corrupt("append-run read extent slice offset overflows"),
                ),
            }
        },
    };
    Ok(ReadExtent { output_offset, len, source })
}

/// The extent with the part that a run covers cut out.
fn cut_read_extent(piece: &ReadExtent, run: &ReadExtent, len: Ghost<int>, out: &mut Vec<ReadExtent>)
    requires
        piece.wf(len@),
        run.wf(len@),
        len@ <= u64::MAX,
        read_extents_wf(old(out)@, len@),
    ensures
        read_extents_wf(final(out)@, len@),
        forall|segments: Map<u128, SegmentRecord>| #[trigger]
            extents_stored(segments, old(out)@) && extent_stored(segments, *piece)
                ==> extents_stored(segments, final(out)@),
        forall|place: int| #[trigger]
            read_at(final(out)@, place) == if piece.contains(place) && !run.contains(place) {
                Some(piece.byte_at(place))
            } else {
                read_at(old(out)@, place)
            },
{
    let ghost before = out@;
    let run_start: u64 = run.output_offset;
    let run_end: u64 = run.output_offset + run.len;
    let piece_start: u64 = piece.output_offset;
    let piece_end: u64 = piece.output_offset + piece.len;
    let overlap_start: u64 = if piece_start >= run_start {
        piece_start
    } else {
        run_start
    };
    let overlap_end: u64 = if piece_end <= run_end {
        piece_end
    } else {
        run_end
    };
    if overlap_start >= overlap_end {
        out.push(*piece);
        proof {
            assert forall|place: int| #[trigger] read_at(out@, place) == (if piece.contains(place)
                && !run.contains(place) {
                Some(piece.byte_at(place))
            } else {
                read_at(before, place)
            }) by {
                lemma_read_push(before, *piece, place);
            }
        }
        return;
    }
    if piece_start < overlap_start {
        match slice_read_extent(piece, piece_start, overlap_start - piece_start) {
            Ok(left) => {
                out.push(left);
                proof {
                    assert forall|place: int| #[trigger] read_at(out@, place)
                        == (if piece.contains(place) && place < overlap_start {
                        Some(piece.byte_at(place))
                    } else {
                        read_at(before, place)
                    }) by {
                        lemma_read_push(before, left, place);
                        assert(left.byte_at(place) == piece.byte_at(place));
                    }
                }
            },
            Err(_) => {
                assert(false);
            },
        }
    }
    let ghost middle = out@;
    if overlap_end < piece_end {
        match slice_read_extent(piece, overlap_end, piece_end - overlap_end) {
            Ok(right) => {
                out.push(right);
                proof {
                    assert forall|place: int| #[trigger] read_at(out@, place)
                        == (if piece.contains(place) && !run.contains(place) {
                        Some(piece.byte_at(place))
                    } else {
                        read_at(before, place)
                    }) by {
                        lemma_read_push(middle, right, place);
                        assert(right.byte_at(place) == piece.byte_at(place));
                        assert(read_at(middle, place) == (if piece.contains(place) && place
                            < overlap_start {
                            Some(piece.byte_at(place))
                        } else {
                            read_at(before, place)
                        }));
                    }
                }
            },
            Err(_) => {
                assert(false);
            },
        }
    }
}

/// The segment extents with everything that runs cover cut out.
pub fn trim_segment_read_extents_for_append_runs(
    segment_extents: &Vec<ReadExtent>,
    run_extents: &Vec<ReadExtent>,
    len: Ghost<int>,
    segments: Ghost<Map<u128, SegmentRecord>>,
) -> (result: Result<Vec<ReadExtent>, StorageError>)
    requires
        len@ <= u64::MAX,
        read_extents_wf(segment_extents@, len@),
        read_extents_wf(run_extents@, len@),
    ensures
        result matches Ok(trimmed) && read_extents_wf(trimmed@, len@) && forall|place: int|
            #[trigger] read_at(trimmed@, place) == if read_at(run_extents@, place) is Some {
                None
            } else {
                read_at(segment_extents@, place)
            },
        result matches Ok(trimmed) ==> extents_stored(segments@, segment_extents@)
            ==> extents_stored(segments@, trimmed@),
{
    let mut out: Vec<ReadExtent> = Vec::new();
    let mut i: usize = 0;
    assert(segment_extents@.take(0) =~= Seq::<ReadExtent>::empty());
    while i < segment_extents.len()
        invariant
            i <= segment_extents@.len(),
            len@ <= u64::MAX,
            read_extents_wf(segment_extents@, len@),
            read_extents_wf(run_extents@, len@),
            read_extents_wf(out@, len@),
            extents_stored(segments@, segment_extents@) ==> extents_stored(segments@, out@),
            forall|place: int| #[trigger]
                read_at(out@, place) == if read_at(run_extents@, place) is Some {
                    None
                } else {
                    read_at(segment_extents@.take(i as int), place)
                },
        decreases segment_extents@.len() - i,
    {
        let segment = segment_extents[i];
        let ghost before = out@;
        assert(segment_extents@[i as int].wf(len@));
        assert(segment_extents@.take(i + 1).drop_last() =~= segment_extents@.take(i as int));
        let mut pieces: Vec<ReadExtent> = Vec::new();
        pieces.push(segment);
        proof {
            assert(run_extents@.take(0) =~= Seq::<ReadExtent>::empty());
            assert(pieces@.drop_last() =~= Seq::<ReadExtent>::empty());
            assert forall|place: int| #[trigger] read_at(pieces@, place) == (if read_at(
                run_extents@.take(0),
                place,
            ) is None && segment.contains(place) {
                Some(segment.byte_at(place))
            } else {
                None
            }) by {
                reveal_with_fuel(read_at, 2);
            }
        }
        let mut j: usize = 0;
        while j < run_extents.len()
            invariant
                j <= run_extents@.len(),
                len@ <= u64::MAX,
                read_extents_wf(run_extents@, len@),
                read_extents_wf(pieces@, len@),
                extent_stored(segments@, segment) ==> extents_stored(segments@, pieces@),
                forall|place: int| #[trigger]
                    read_at(pieces@, place) == if read_at(run_extents@.take(j as int), place)
                        is None && segment.contains(place) {
                        Some(segment.byte_at(place))
                    } else {
                        None
                    },
            decreases run_extents@.len() - j,
        {
            let run = run_extents[j];
            let ghost whole = pieces@;
            proof {
                assert(run_extents@[j as int].wf(len@));
                assert(run_extents@.take(j + 1).drop_last() =~= run_extents@.take(j as int));
            }
            let mut next: Vec<ReadExtent> = Vec::new();
            let mut k: usize = 0;
            assert(pieces@.take(0) =~= Seq::<ReadExtent>::empty());
            while k < pieces.len()
                invariant
                    k <= pieces@.len(),
                    len@ <= u64::MAX,
                    run.wf(len@),
                    read_extents_wf(pieces@, len@),
                    read_extents_wf(next@, len@),
                    extents_stored(segments@, pieces@) ==> extents_stored(segments@, next@),
                    forall|place: int| #[trigger]
                        read_at(next@, place) == if run.contains(place) {
                            None
                        } else {
                            read_at(pieces@.take(k as int), place)
                        },
                decreases pieces@.len() - k,
            {
                assert(pieces@[k as int].wf(len@));
                assert(pieces@.take(k + 1).drop_last() =~= pieces@.take(k as int));
                let piece = pieces[k];
                let ghost next_before = next@;
                cut_read_extent(&piece, &run, len, &mut next);
                assert forall|place: int| #[trigger] read_at(next@, place) == (if run.contains(
                    place,
                ) {
                    None
                } else {
                    read_at(pieces@.take(k + 1), place)
                }) by {
                    assert(read_at(next_before, place) == (if run.contains(place) {
                        None
                    } else {
                        read_at(pieces@.take(k as int), place)
                    }));
                }
                k = k + 1;
            }
            assert(pieces@.take(pieces@.len() as int) =~= pieces@);
            pieces = next;
            assert forall|place: int| #[trigger] read_at(pieces@, place) == (if read_at(
                run_extents@.take(j + 1),
                place,
            ) is None && segment.contains(place) {
                Some(segment.byte_at(place))
            } else {
                None
            }) by {
                assert(read_at(whole, place) == (if read_at(run_extents@.take(j as int), place)
                    is None && segment.contains(place) {
                    Some(segment.byte_at(place))
                } else {
                    None
                }));
            }
            j = j + 1;
        }
        assert(run_extents@.take(run_extents@.len() as int) =~= run_extents@);
        let mut n: usize = 0;
        let ghost all = pieces@;
        assert(all.take(0) =~= Seq::<ReadExtent>::empty());
        while n < pieces.len()
            invariant
                n <= pieces@.len(),
                pieces@ == all,
                extents_stored(segments@, pieces@) && extents_stored(segments@, before)
                    ==> extents_stored(segments@, out@),
                read_extents_wf(pieces@, len@),
                read_extents_wf(out@, len@),
                forall|place: int| #[trigger]
                    read_at(out@, place) == match read_at(all.take(n as int), place) {
                        Some(byte) => Some(byte),
                        None => read_at(before, place),
                    },
            decreases pieces@.len() - n,
        {
            let piece = pieces[n];
            let ghost out_before = out@;
            assert(pieces@[n as int].wf(len@));
            assert(all.take(n + 1).drop_last() =~= all.take(n as int));
            out.push(piece);
            assert forall|place: int| #[trigger] read_at(out@, place) == (match read_at(
                all.take(n + 1),
                place,
            ) {
                Some(byte) => Some(byte),
                None => read_at(before, place),
            }) by {
                lemma_read_push(out_before, piece, place);
                assert(read_at(out_before, place) == (match read_at(all.take(n as int), place) {
                    Some(byte) => Some(byte),
                    None => read_at(before, place),
                }));
            }
            n = n + 1;
        }
        assert(all.take(all.len() as int) =~= all);
        assert forall|place: int| #[trigger] read_at(out@, place) == (if read_at(
            run_extents@,
            place,
        ) is Some {
            None
        } else {
            read_at(segment_extents@.take(i + 1), place)
        }) by {
            assert(read_at(all, place) == (if read_at(run_extents@, place) is None
                && segment.contains(place) {
                Some(segment.byte_at(place))
            } else {
                None
            }));
            assert(read_at(before, place) == (if read_at(run_extents@, place) is Some {
                None
            } else {
                read_at(segment_extents@.take(i as int), place)
            }));
        }
        i = i + 1;
    }
    assert(segment_extents@.take(segment_extents@.len() as int) =~= segment_extents@);
    Ok(out)
}

/// What a byte of a read is.
pub open spec fn read_byte_value<S: StorageNodeReadService>(
    storage: &S,
    byte: Option<ReadByte>,
) -> u8 {
    match byte {
        Some(ReadByte::Stored { storage_node, segment_id, offset }) => storage.stored_byte(
            storage_node,
            segment_id,
            offset,
        ),
        Some(ReadByte::Logged { storage_node, log_id, offset }) => storage.logged_byte(
            storage_node,
            log_id,
            offset,
        ),
        _ => 0,
    }
}

/// Whether the storage serves an extent.
pub open spec fn serves_extent<S: StorageNodeReadService>(
    storage: &S,
    extent: ReadExtent,
    verification: ReadVerification,
) -> bool {
    match extent.source {
        ReadSource::Zero => true,
        ReadSource::Segment { storage_node, segment_id, segment_offset, integrity } => {
            storage.serves_segment(
                storage_node,
                segment_id,
                ByteRange { offset: segment_offset, len: extent.len },
                integrity,
                verification,
            )
        },
        ReadSource::AppendRun { storage_node, log_id, payload_offset, integrity } => {
            storage.serves_log(
                storage_node,
                log_id,
                ByteRange { offset: payload_offset, len: extent.len },
                integrity,
                verification,
            )
        },
    }
}

/// Fills a buffer from the extents of a read; what no extent covers is zero.
pub fn assemble_read_plan<S: StorageNodeReadService>(
    storage: &S,
    extents: &Vec<ReadExtent>,
    verification: ReadVerification,
    buf: &mut [u8],
) -> (result: Result<(), StorageError>)
    requires
        read_extents_wf(extents@, old(buf)@.len() as int),
    ensures
        final(buf)@.len() == old(buf)@.len(),
        result is Err ==> final(buf)@ == old(buf)@,
        result is Ok ==> forall|place: int|
            0 <= place < final(buf)@.len() ==> #[trigger] final(buf)@[place] == read_byte_value(
                storage,
                read_at(extents@, place),
            ),
        (forall|i: int|
            0 <= i < extents@.len() ==> serves_extent(
                storage,
                #[trigger] extents@[i],
                verification,
            )) ==> result is Ok,
{
    let buf_len: usize = buf.len();
    let mut out: Vec<u8> = Vec::new();
    out.resize(buf_len, 0);
    let mut i: usize = 0;
    assert(extents@.take(0) =~= Seq::<ReadExtent>::empty());
    while i < extents.len()
        invariant
            i <= extents@.len(),
            out@.len() == buf_len,
            buf@ == old(buf)@,
            buf@.len() == buf_len,
            read_extents_wf(extents@, buf_len as int),
            forall|place: int|
                0 <= place < out@.len() ==> #[trigger] out@[place] == read_byte_value(
                    storage,
                    read_at(extents@.take(i as int), place),
                ),
        decreases extents@.len() - i,
    {
        let extent = extents[i];
        proof {
            assert(extents@[i as int].wf(buf_len as int));
            assert(extents@.take(i + 1).drop_last() =~= extents@.take(i as int));
        }
        let ghost before = out@;
        let mut bytes: Vec<u8> = Vec::new();
        bytes.resize(extent.len as usize, 0);
        let result = match extent.source {
            ReadSource::Zero => Ok(()),
            ReadSource::Segment { storage_node, segment_id, segment_offset, integrity } => {
                storage.read_segment_source(
                    storage_node,
                    segment_id,
                    ByteRange { offset: segment_offset, len: extent.len },
                    integrity,
                    verification,
                    bytes.as_mut_slice(),
                )
            },
            ReadSource::AppendRun { storage_node, log_id, payload_offset, integrity } => {
                storage.read_append_run_source(
                    storage_node,
                    log_id,
                    ByteRange { offset: payload_offset, len: extent.len },
                    integrity,
                    verification,
                    bytes.as_mut_slice(),
                )
            },
        };
        match result {
            Ok(()) => {},
            Err(error) => {
                assert(!serves_extent(storage, extents@[i as int], verification));
                return Err(error);
            },
        }
        assert forall|k: int| 0 <= k < extent.len implies #[trigger] bytes@[k] == read_byte_value(
            storage,
            Some(extent.byte_at(extent.output_offset + k)),
        ) by {}
        let mut k: usize = 0;
        while k < bytes.len()
            invariant
                k <= bytes@.len(),
                bytes@.len() == extent.len,
                extent.output_offset + extent.len <= buf_len,
                out@.len() == before.len() == buf_len,
                forall|place: int|
                    0 <= place < out@.len() ==> #[trigger] out@[place] == if extent.output_offset
                        <= place < extent.output_offset + k {
                        bytes@[place - extent.output_offset]
                    } else {
                        before[place]
                    },
            decreases bytes@.len() - k,
        {
            out.set(extent.output_offset as usize + k, bytes[k]);
            k = k + 1;
        }
        assert forall|place: int| 0 <= place < out@.len() implies #[trigger] out@[place]
            == read_byte_value(storage, read_at(extents@.take(i + 1), place)) by {
            if extent.contains(place) {
                assert(bytes@[place - extent.output_offset] == read_byte_value(
                    storage,
                    Some(extent.byte_at(place)),
                ));
            } else {
                assert(before[place] == read_byte_value(
                    storage,
                    read_at(extents@.take(i as int), place),
                ));
            }
        }
        i = i + 1;
    }
    assert(extents@.take(extents@.len() as int) =~= extents@);
    let mut z: usize = 0;
    while z < buf_len
        invariant
            z <= buf_len,
            buf@.len() == buf_len,
            out@.len() == buf_len,
            forall|k: int| 0 <= k < z ==> buf@[k] == out@[k],
        decreases buf_len - z,
    {
        buf[z] = out[z];
        z = z + 1;
    }
    assert forall|place: int| 0 <= place < buf@.len() implies #[trigger] buf@[place]
        == read_byte_value(storage, read_at(extents@, place)) by {
        assert(buf@[place] == out@[place]);
    }
    Ok(())
}

} // verus!
