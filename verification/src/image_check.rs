//! Whether a durable copy is sound: each test says just what the invariant that
//! it is named after says.
use vstd::prelude::*;

use crate::block_api::{BlockRange, DeviceSpec};
use crate::coordinator::LocalCoordinator;
use crate::device_trees::{has_shard_at, shard_covers, shards_wf};
use crate::durable_state::DurableStoreState;
use crate::error::StorageError;
use crate::grants::verify_segment_receipt;
use crate::id::{KeyspaceCatalogShardId, MetadataNodeId};
use crate::idmap::{IdMap, is_walk};
use crate::integrity::verify_segment_payload_integrity;
use crate::leaf::{extents_wf, leaf_wf};
use crate::metadata::{
    AppendPublishTicketRecord, KeyspaceCatalogShard, LiveAppendStream, MetadataInner,
    catalog_roots_wf, catalog_shard_wf, checkpoint_wf, file_wf, head_wf, heads_wf,
    records_contiguous, root_of_shard, shard_commit_wf, stream_record_wf, stream_wf,
};
use crate::metadata_records::{
    AppendStreamRunRecord, AppendStreamStatus, Checkpoint, CheckpointRoots, DeviceHead,
    KeyspaceFile, KeyspaceHead, KeyspaceRoot, LeafEntry, MappingOwner, MetadataChild, MetadataNode,
    MetadataNodeKind, RunBackedFileExtent, ShardCommit,
};
use crate::ranges::blocks_for_bytes;
use crate::read_plan::{node_runs_backed, run_backed};
use crate::run_logs::AppendRunLogs;
use crate::storage_nodes::{SegmentRecord, entry_backed, is_entry_backed, record_wf};
use crate::tree::{TreeStore, children_wf, has_child_at, node_backed, node_wf, tree_wf};

verus! {

/// Whether ranges follow one another from a start to an end.
pub open spec fn ranges_follow(ranges: Seq<BlockRange>, start: int, end: int) -> bool
    decreases ranges.len(),
{
    if ranges.len() == 0 {
        start == end
    } else {
        let last = ranges.last();
        &&& last.blocks.0 > 0
        &&& last.end() == end
        &&& ranges_follow(ranges.drop_last(), start, last.start.0 as int)
    }
}

/// Whether ranges lie apart, in order, and make up all from a start to an end.
pub open spec fn ranges_tile(ranges: Seq<BlockRange>, start: int, end: int) -> bool {
    &&& forall|i: int|
        0 <= i < ranges.len() ==> (#[trigger] ranges[i]).blocks.0 > 0 && start
            <= ranges[i].start.0 && ranges[i].end() <= end
    &&& forall|i: int, j: int|
        0 <= i < j < ranges.len() ==> (#[trigger] ranges[i]).end() <= (
        #[trigger] ranges[j]).start.0
    &&& forall|block: int| start <= block < end ==> #[trigger] in_some_range(ranges, block)
}

pub open spec fn in_some_range(ranges: Seq<BlockRange>, block: int) -> bool {
    exists|i: int| 0 <= i < ranges.len() && (#[trigger] ranges[i]).contains(block)
}

/// Ranges make up a whole just where they follow one another.
proof fn lemma_follow_tiles(ranges: Seq<BlockRange>, start: int, end: int)
    requires
        start <= end,
    ensures
        ranges_follow(ranges, start, end) == ranges_tile(ranges, start, end),
    decreases ranges.len(),
{
    if ranges.len() == 0 {
        if start < end {
            assert(!in_some_range(ranges, start));
        }
    } else {
        let shorter = ranges.drop_last();
        let at = ranges.len() - 1;
        let last = ranges[at];
        let middle = last.start.0 as int;
        if ranges_follow(ranges, start, end) {
            lemma_follow_start(shorter, start, middle);
            lemma_follow_tiles(shorter, start, middle);
            assert forall|i: int| 0 <= i < ranges.len() implies (#[trigger] ranges[i]).blocks.0 > 0
                && start <= ranges[i].start.0 && ranges[i].end() <= end by {
                if i < at {
                    assert(shorter[i] == ranges[i]);
                }
            }
            assert forall|i: int, j: int| 0 <= i < j < ranges.len() implies (
            #[trigger] ranges[i]).end() <= (#[trigger] ranges[j]).start.0 by {
                assert(shorter[i] == ranges[i]);
                if j < at {
                    assert(shorter[j] == ranges[j]);
                }
            }
            assert forall|block: int| start <= block < end implies #[trigger] in_some_range(
                ranges,
                block,
            ) by {
                if block < middle {
                    assert(in_some_range(shorter, block));
                    let i = choose|i: int|
                        0 <= i < shorter.len() && (#[trigger] shorter[i]).contains(block);
                    assert(ranges[i].contains(block));
                } else {
                    assert(ranges[at].contains(block));
                }
            }
        }
        if ranges_tile(ranges, start, end) {
            assert(in_some_range(ranges, end - 1));
            let k = choose|k: int| 0 <= k < ranges.len() && (#[trigger] ranges[k]).contains(end - 1);
            if k < at {
                assert(ranges[k].end() <= ranges[at].start.0);
            }
            assert(last.end() == end);
            assert forall|i: int| 0 <= i < shorter.len() implies (
            #[trigger] shorter[i]).blocks.0 > 0 && start <= shorter[i].start.0
                && shorter[i].end() <= middle by {
                assert(shorter[i] == ranges[i]);
                assert(ranges[i].end() <= ranges[at].start.0);
            }
            assert forall|i: int, j: int| 0 <= i < j < shorter.len() implies (
            #[trigger] shorter[i]).end() <= (#[trigger] shorter[j]).start.0 by {
                assert(ranges[i].end() <= ranges[j].start.0);
            }
            assert forall|block: int| start <= block < middle implies #[trigger] in_some_range(
                shorter,
                block,
            ) by {
                assert(in_some_range(ranges, block));
                let i = choose|i: int|
                    0 <= i < ranges.len() && (#[trigger] ranges[i]).contains(block);
                assert(shorter[i].contains(block));
            }
            lemma_follow_tiles(shorter, start, middle);
        }
    }
}

/// Ranges that follow one another do not go back.
proof fn lemma_follow_start(ranges: Seq<BlockRange>, start: int, end: int)
    requires
        ranges_follow(ranges, start, end),
    ensures
        start <= end,
    decreases ranges.len(),
{
    if ranges.len() > 0 {
        lemma_follow_start(ranges.drop_last(), start, ranges.last().start.0 as int);
    }
}

fn is_same_range(one: BlockRange, other: BlockRange) -> (same: bool)
    ensures
        same == (one == other),
{
    one.start.0 == other.start.0 && one.blocks.0 == other.blocks.0
}

/// Whether ranges follow one another.
fn do_ranges_follow(ranges: &Vec<BlockRange>, start: u64, end: u64) -> (ok: bool)
    ensures
        ok == ranges_follow(ranges@, start as int, end as int),
{
    let mut left: usize = ranges.len();
    let mut until: u64 = end;
    assert(ranges@.take(ranges@.len() as int) =~= ranges@);
    while left > 0
        invariant
            left <= ranges@.len(),
            ranges_follow(ranges@, start as int, end as int) == ranges_follow(
                ranges@.take(left as int),
                start as int,
                until as int,
            ),
        decreases left,
    {
        let range = ranges[left - 1];
        proof {
            assert(ranges@.take(left as int).last() == range);
            assert(ranges@.take(left as int).drop_last() =~= ranges@.take(left - 1));
        }
        if range.blocks.0 == 0 || range.start.0 > until || until - range.start.0
            != range.blocks.0 {
            return false;
        }
        until = range.start.0;
        left = left - 1;
    }
    assert(ranges@.take(0) =~= Seq::<BlockRange>::empty());
    start == until
}

/// The ranges of a node's children, if each child is there, older than the node
/// and has its range.
fn child_ranges(
    nodes: &IdMap<MetadataNode>,
    children: &Vec<MetadataChild>,
    id: u128,
) -> (found: Option<Vec<BlockRange>>)
    ensures
        found is Some <==> forall|i: int|
            0 <= i < children@.len() ==> child_fits(nodes@, #[trigger] children@[i], id),
        found matches Some(ranges) ==> ranges@ == children@.map_values(
            |child: MetadataChild| child.range,
        ),
{
    let mut ranges: Vec<BlockRange> = Vec::new();
    let mut next: usize = 0;
    while next < children.len()
        invariant
            next <= children@.len(),
            ranges@.len() == next,
            forall|i: int| 0 <= i < next ==> child_fits(nodes@, #[trigger] children@[i], id),
            forall|i: int| 0 <= i < next ==> #[trigger] ranges@[i] == children@[i].range,
        decreases children@.len() - next,
    {
        let child = children[next];
        let fits = match nodes.get(child.node_id.raw()) {
            Some(node) => child.node_id.0 < id && is_same_range(node.covered_range, child.range),
            None => false,
        };
        if !fits {
            assert(!child_fits(nodes@, children@[next as int], id));
            return None;
        }
        ranges.push(child.range);
        next = next + 1;
    }
    assert(ranges@ =~= children@.map_values(|child: MetadataChild| child.range));
    Some(ranges)
}

/// Whether a child is there, older than its parent, with the range that its
/// parent says.
pub open spec fn child_fits(
    nodes: Map<u128, MetadataNode>,
    child: MetadataChild,
    id: u128,
) -> bool {
    &&& nodes.contains_key(child.node_id.0)
    &&& child.node_id.0 < id
    &&& nodes[child.node_id.0].covered_range == child.range
}

fn are_children_sound(
    nodes: &IdMap<MetadataNode>,
    children: &Vec<MetadataChild>,
    covered: BlockRange,
    id: u128,
) -> (ok: bool)
    requires
        covered.end() <= u64::MAX,
    ensures
        ok == children_wf(nodes@, children@, covered, id),
{
    let ranges = match child_ranges(nodes, children, id) {
        Some(ranges) => ranges,
        None => return false,
    };
    let end: u64 = covered.start.0 + covered.blocks.0;
    let ok = do_ranges_follow(&ranges, covered.start.0, end);
    proof {
        lemma_follow_tiles(ranges@, covered.start.0 as int, end as int);
        let tiled = ranges_tile(ranges@, covered.start.0 as int, end as int);
        if tiled {
            assert forall|i: int| 0 <= i < children@.len() implies nodes@.contains_key(
                (#[trigger] children@[i]).node_id.0,
            ) && children@[i].node_id.0 < id && nodes@[children@[i].node_id.0].covered_range
                == children@[i].range && children@[i].range.blocks.0 > 0 && covered.start.0
                <= children@[i].range.start.0 && children@[i].range.end() <= covered.end() by {
                assert(child_fits(nodes@, children@[i], id));
                assert(ranges@[i] == children@[i].range);
            }
            assert forall|i: int, j: int| 0 <= i < j < children@.len() implies (
            #[trigger] children@[i]).range.end() <= (#[trigger] children@[j]).range.start.0 by {
                assert(ranges@[i].end() <= ranges@[j].start.0);
            }
            assert forall|block: int| covered.contains(block) implies #[trigger] has_child_at(
                children@,
                block,
            ) by {
                assert(in_some_range(ranges@, block));
                let i = choose|i: int|
                    0 <= i < ranges@.len() && (#[trigger] ranges@[i]).contains(block);
                assert(children@[i].range.contains(block));
            }
        }
        if children_wf(nodes@, children@, covered, id) {
            assert forall|i: int| 0 <= i < ranges@.len() implies (
            #[trigger] ranges@[i]).blocks.0 > 0 && covered.start.0 <= ranges@[i].start.0
                && ranges@[i].end() <= end by {
                assert(ranges@[i] == children@[i].range);
            }
            assert forall|i: int, j: int| 0 <= i < j < ranges@.len() implies (
            #[trigger] ranges@[i]).end() <= (#[trigger] ranges@[j]).start.0 by {
                assert(children@[i].range.end() <= children@[j].range.start.0);
            }
            assert forall|block: int| covered.start.0 <= block < end implies #[trigger]
                in_some_range(ranges@, block) by {
                assert(has_child_at(children@, block));
                let i = choose|i: int|
                    0 <= i < children@.len() && (#[trigger] children@[i]).range.contains(block);
                assert(ranges@[i].contains(block));
            }
            assert(tiled);
        }
    }
    ok
}

fn are_entries_sound(entries: &Vec<LeafEntry>, covered: BlockRange) -> (ok: bool)
    requires
        covered.end() <= u64::MAX,
    ensures
        ok == leaf_wf(entries@, covered),
{
    let end: u64 = covered.start.0 + covered.blocks.0;
    let mut least: u64 = covered.start.0;
    let mut next: usize = 0;
    while next < entries.len()
        invariant
            next <= entries@.len(),
            end == covered.end(),
            covered.start.0 <= least,
            next > 0 ==> least == entries@[next - 1].range().end(),
            next == 0 ==> least == covered.start.0,
            forall|i: int|
                0 <= i < next ==> (#[trigger] entries@[i]).wf() && covered.start.0
                    <= entries@[i].logical_start.0 && entries@[i].range().end() <= least
                    && entries@[i].range().end() <= end,
            forall|i: int, j: int|
                0 <= i < j < next ==> (#[trigger] entries@[i]).range().end() <= (
                #[trigger] entries@[j]).logical_start.0,
        decreases entries@.len() - next,
    {
        let entry = entries[next];
        let ghost at = next as int;
        assert(entries@[at] == entry);
        if entry.blocks.0 == 0 || entry.logical_start.0 < least || entry.logical_start.0 > end
            || end - entry.logical_start.0 < entry.blocks.0 || entry.segment_offset.0 > u64::MAX
            - entry.blocks.0 {
            proof {
                if next > 0 && leaf_wf(entries@, covered) {
                    assert(entries@[at - 1].range().end() <= entries@[at].logical_start.0);
                }
            }
            return false;
        }
        least = entry.logical_start.0 + entry.blocks.0;
        next = next + 1;
    }
    true
}

fn are_extents_sound(extents: &Vec<RunBackedFileExtent>, low: u64, high: u64) -> (ok: bool)
    ensures
        ok == extents_wf(extents@, low as int, high as int),
{
    let mut least: u64 = low;
    let mut next: usize = 0;
    while next < extents.len()
        invariant
            next <= extents@.len(),
            low <= least,
            next > 0 ==> least == extents@[next - 1].range().end(),
            next == 0 ==> least == low,
            forall|i: int|
                0 <= i < next ==> (#[trigger] extents@[i]).wf() && low
                    <= extents@[i].file_offset_start && extents@[i].range().end() <= least
                    && extents@[i].range().end() <= high,
            forall|i: int, j: int|
                0 <= i < j < next ==> (#[trigger] extents@[i]).range().end() <= (
                #[trigger] extents@[j]).file_offset_start,
        decreases extents@.len() - next,
    {
        let extent = extents[next];
        let ghost at = next as int;
        assert(extents@[at] == extent);
        if extent.payload_len == 0 || extent.file_offset_start < least
            || extent.file_offset_start > high || high - extent.file_offset_start
            < extent.payload_len || extent.run.file_offset_start != extent.file_offset_start
            || extent.run.payload_len != extent.payload_len || extent.run.log_payload_offset
            > u64::MAX - extent.payload_len {
            proof {
                if next > 0 && extents_wf(extents@, low as int, high as int) {
                    assert(extents@[at - 1].range().end() <= extents@[at].file_offset_start);
                }
            }
            return false;
        }
        least = extent.file_offset_start + extent.payload_len;
        next = next + 1;
    }
    true
}

fn is_node_sound(
    nodes: &IdMap<MetadataNode>,
    id: u128,
    node: &MetadataNode,
    block_size: u64,
) -> (ok: bool)
    requires
        block_size > 0,
        nodes@.contains_key(id),
        nodes@[id] == *node,
    ensures
        ok == node_wf(nodes@, id, block_size),
{
    let covered = node.covered_range;
    if node.node_id.0 != id {
        return false;
    }
    let end: u64 = match covered.start.0.checked_add(covered.blocks.0) {
        Some(end) => end,
        None => {
            assert(covered.end() * block_size > u64::MAX) by (nonlinear_arith)
                requires
                    covered.end() > u64::MAX,
                    block_size >= 1,
            ;
            return false;
        },
    };
    let high: u64 = match end.checked_mul(block_size) {
        Some(high) => high,
        None => return false,
    };
    match &node.kind {
        MetadataNodeKind::Leaf { entries, run_extents } => {
            assert(covered.start.0 * block_size <= high) by (nonlinear_arith)
                requires
                    high == end * block_size,
                    covered.start.0 <= end,
            ;
            let low: u64 = covered.start.0 * block_size;
            are_entries_sound(entries, covered) && are_extents_sound(run_extents, low, high)
        },
        MetadataNodeKind::Internal { children } => are_children_sound(
            nodes,
            children,
            covered,
            id,
        ),
    }
}

/// Whether every node of a tree store is sound.
fn are_nodes_sound(
    map: &IdMap<MetadataNode>,
    next_id: u128,
    block_size: u64,
) -> (ok: bool)
    requires
        block_size > 0,
    ensures
        ok == forall|id: u128| #[trigger] map@.contains_key(id) ==> id < next_id && node_wf(map@, id, block_size),
{
    let count: usize = map.len();
    let ghost keys = map.keys();
    let mut next: usize = 0;
    while next < count
        invariant
            next <= count,
            count == keys.len(),
            keys == map.keys(),
            is_walk(keys, map@),
            block_size > 0,
            forall|i: int| 0 <= i < next ==> (#[trigger] keys[i]) < next_id && node_wf(map@, (#[trigger] keys[i]), block_size),
        decreases count - next,
    {
        let (id, value) = map.entry_at(next);
        assert(keys[next as int] == id);
        if !(id < next_id && is_node_sound(map, id, value, block_size)) {
            assert(map@.contains_key(id));
            return false;
        }
        next = next + 1;
    }
    proof {
        assert forall|id: u128| #[trigger] map@.contains_key(id) implies id < next_id && node_wf(map@, id, block_size) by {
            assert(keys.contains(id));
            let i = keys.index_of(id);
            assert(keys[i] == id);
        }
    }
    true
}

fn are_trees_sound(store: &TreeStore, block_size: u64) -> (ok: bool)
    requires
        block_size > 0,
    ensures
        ok == store.wf(block_size),
{
    let ok = are_nodes_sound(&store.nodes, store.next_metadata_node_id, block_size);
    proof {
        if store.wf(block_size) {
            assert forall|id: u128| #[trigger] store.nodes@.contains_key(id) implies id
                < store.next_metadata_node_id && node_wf(store.nodes@, id, block_size) by {}
        }
    }
    ok
}

/// Whether the entries of a leaf are backed.
fn are_entries_backed(
    items: &Vec<LeafEntry>,
    segments: &IdMap<SegmentRecord>,
) -> (ok: bool)
    ensures
        ok == forall|i: int| 0 <= i < items@.len() ==> entry_backed(segments@, (#[trigger] items@[i])),
{
    let mut next: usize = 0;
    while next < items.len()
        invariant
            next <= items@.len(),
            forall|i: int| 0 <= i < next ==> entry_backed(segments@, (#[trigger] items@[i])),
        decreases items@.len() - next,
    {
        let value = &items[next];
        if !(is_entry_backed(segments, *value)) {
            assert(!(entry_backed(segments@, items@[next as int])));
            return false;
        }
        next = next + 1;
    }
    true
}

fn is_node_backed(node: &MetadataNode, segments: &IdMap<SegmentRecord>) -> (ok: bool)
    ensures
        ok == node_backed(*node, segments@),
{
    match &node.kind {
        MetadataNodeKind::Leaf { entries, .. } => are_entries_backed(entries, segments),
        MetadataNodeKind::Internal { .. } => true,
    }
}

/// Whether every node is backed by segments.
fn is_tree_backed(
    map: &IdMap<MetadataNode>,
    segments: &IdMap<SegmentRecord>,
) -> (ok: bool)
    ensures
        ok == forall|id: u128| #[trigger] map@.contains_key(id) ==> node_backed(map@[id], segments@),
{
    let count: usize = map.len();
    let ghost keys = map.keys();
    let mut next: usize = 0;
    while next < count
        invariant
            next <= count,
            count == keys.len(),
            keys == map.keys(),
            is_walk(keys, map@),
            forall|i: int| 0 <= i < next ==> node_backed(map@[keys[i]], segments@),
        decreases count - next,
    {
        let (id, value) = map.entry_at(next);
        assert(keys[next as int] == id);
        if !(is_node_backed(value, segments)) {
            assert(map@.contains_key(id));
            return false;
        }
        next = next + 1;
    }
    proof {
        assert forall|id: u128| #[trigger] map@.contains_key(id) implies node_backed(map@[id], segments@) by {
            assert(keys.contains(id));
            let i = keys.index_of(id);
            assert(keys[i] == id);
        }
    }
    true
}

/// Whether extents are in the run logs.
fn are_extents_backed(
    items: &Vec<RunBackedFileExtent>,
    logs: &AppendRunLogs,
) -> (ok: bool)
    ensures
        ok == forall|i: int| 0 <= i < items@.len() ==> run_backed(logs@, (#[trigger] items@[i])),
{
    let mut next: usize = 0;
    while next < items.len()
        invariant
            next <= items@.len(),
            forall|i: int| 0 <= i < next ==> run_backed(logs@, (#[trigger] items@[i])),
        decreases items@.len() - next,
    {
        let value = &items[next];
        if !(logs.holds(value.run.storage_node, value.run.log_id, value.run.log_payload_offset, value.payload_len, value.run.integrity)) {
            assert(!(run_backed(logs@, items@[next as int])));
            return false;
        }
        next = next + 1;
    }
    true
}

fn are_node_runs_backed(node: &MetadataNode, logs: &AppendRunLogs) -> (ok: bool)
    ensures
        ok == node_runs_backed(*node, logs@),
{
    match &node.kind {
        MetadataNodeKind::Leaf { run_extents, .. } => are_extents_backed(run_extents, logs),
        MetadataNodeKind::Internal { .. } => true,
    }
}

/// Whether the runs of every node are in the logs.
fn are_tree_runs_backed(
    map: &IdMap<MetadataNode>,
    logs: &AppendRunLogs,
) -> (ok: bool)
    ensures
        ok == forall|id: u128| #[trigger] map@.contains_key(id) ==> node_runs_backed(map@[id], logs@),
{
    let count: usize = map.len();
    let ghost keys = map.keys();
    let mut next: usize = 0;
    while next < count
        invariant
            next <= count,
            count == keys.len(),
            keys == map.keys(),
            is_walk(keys, map@),
            forall|i: int| 0 <= i < next ==> node_runs_backed(map@[keys[i]], logs@),
        decreases count - next,
    {
        let (id, value) = map.entry_at(next);
        assert(keys[next as int] == id);
        if !(are_node_runs_backed(value, logs)) {
            assert(map@.contains_key(id));
            return false;
        }
        next = next + 1;
    }
    proof {
        assert forall|id: u128| #[trigger] map@.contains_key(id) implies node_runs_backed(map@[id], logs@) by {
            assert(keys.contains(id));
            let i = keys.index_of(id);
            assert(keys[i] == id);
        }
    }
    true
}

fn is_record_sound(record: &SegmentRecord, id: u128, block_size: u64) -> (ok: bool)
    requires
        block_size > 0,
    ensures
        ok == record_wf(*record, id, block_size),
{
    match record.entry.receipt {
        Some(receipt) => {
            let len: u64 = record.bytes.len() as u64;
            let blocks: u64 = match blocks_for_bytes(len, block_size) {
                Ok(blocks) => blocks,
                Err(_) => return false,
            };
            receipt.segment_id.0 == id && receipt.descriptor.segment_id.0 == id
                && receipt.storage_node.0 == record.storage_node.0 && receipt.descriptor.bytes
                == len && receipt.descriptor.blocks.0 == blocks && receipt.descriptor.integrity
                == receipt.integrity && verify_segment_payload_integrity(
                receipt.integrity,
                record.bytes.as_slice(),
            ).is_ok() && verify_segment_receipt(&receipt).is_ok()
        },
        None => true,
    }
}

/// Whether every segment is sound.
fn are_segments_sound(
    map: &IdMap<SegmentRecord>,
    next_id: u128,
    block_size: u64,
) -> (ok: bool)
    requires
        block_size > 0,
    ensures
        ok == forall|id: u128| #[trigger] map@.contains_key(id) ==> id < next_id && record_wf(map@[id], id, block_size),
{
    let count: usize = map.len();
    let ghost keys = map.keys();
    let mut next: usize = 0;
    while next < count
        invariant
            next <= count,
            count == keys.len(),
            keys == map.keys(),
            is_walk(keys, map@),
            block_size > 0,
            forall|i: int| 0 <= i < next ==> (#[trigger] keys[i]) < next_id && record_wf(map@[keys[i]], (#[trigger] keys[i]), block_size),
        decreases count - next,
    {
        let (id, value) = map.entry_at(next);
        assert(keys[next as int] == id);
        if !(id < next_id && is_record_sound(value, id, block_size)) {
            assert(map@.contains_key(id));
            return false;
        }
        next = next + 1;
    }
    proof {
        assert forall|id: u128| #[trigger] map@.contains_key(id) implies id < next_id && record_wf(map@[id], id, block_size) by {
            assert(keys.contains(id));
            let i = keys.index_of(id);
            assert(keys[i] == id);
        }
    }
    true
}

/// The ranges of a device's shards, if the shards are there.
fn shard_ranges(nodes: &IdMap<MetadataNode>, roots: &Vec<MetadataNodeId>) -> (found: Option<
    Vec<BlockRange>,
>)
    ensures
        found is Some <==> forall|s: int|
            0 <= s < roots@.len() ==> nodes@.contains_key((#[trigger] roots@[s]).0),
        found matches Some(ranges) ==> ranges@ == roots@.map_values(
            |root: MetadataNodeId| nodes@[root.0].covered_range,
        ),
{
    let mut ranges: Vec<BlockRange> = Vec::new();
    let mut next: usize = 0;
    while next < roots.len()
        invariant
            next <= roots@.len(),
            ranges@.len() == next,
            forall|s: int| 0 <= s < next ==> nodes@.contains_key((#[trigger] roots@[s]).0),
            forall|s: int|
                0 <= s < next ==> #[trigger] ranges@[s] == nodes@[roots@[s].0].covered_range,
        decreases roots@.len() - next,
    {
        match nodes.get(roots[next].raw()) {
            Some(node) => ranges.push(node.covered_range),
            None => {
                assert(!nodes@.contains_key(roots@[next as int].0));
                return None;
            },
        }
        next = next + 1;
    }
    assert(ranges@ =~= roots@.map_values(|root: MetadataNodeId| nodes@[root.0].covered_range));
    Some(ranges)
}

fn are_shards_sound(
    nodes: &IdMap<MetadataNode>,
    roots: &Vec<MetadataNodeId>,
    blocks: u64,
) -> (ok: bool)
    ensures
        ok == shards_wf(nodes@, roots@, blocks as int),
{
    let ranges = match shard_ranges(nodes, roots) {
        Some(ranges) => ranges,
        None => return false,
    };
    let ok = do_ranges_follow(&ranges, 0, blocks);
    proof {
        lemma_follow_tiles(ranges@, 0, blocks as int);
        let tiled = ranges_tile(ranges@, 0, blocks as int);
        if tiled {
            assert forall|s: int| 0 <= s < roots@.len() implies nodes@.contains_key(
                (#[trigger] roots@[s]).0,
            ) && nodes@[roots@[s].0].covered_range.end() <= blocks
                && nodes@[roots@[s].0].covered_range.blocks.0 > 0 by {
                assert(ranges@[s] == nodes@[roots@[s].0].covered_range);
            }
            assert forall|s: int, t: int| 0 <= s < t < roots@.len() implies nodes@[(
            #[trigger] roots@[s]).0].covered_range.end() <= nodes@[(
            #[trigger] roots@[t]).0].covered_range.start.0 by {
                assert(ranges@[s].end() <= ranges@[t].start.0);
            }
            assert forall|block: int| 0 <= block < blocks implies #[trigger] has_shard_at(
                nodes@,
                roots@,
                block,
            ) by {
                assert(in_some_range(ranges@, block));
                let s = choose|s: int|
                    0 <= s < ranges@.len() && (#[trigger] ranges@[s]).contains(block);
                assert(shard_covers(nodes@, roots@, s, block));
            }
        }
        if shards_wf(nodes@, roots@, blocks as int) {
            assert forall|s: int| 0 <= s < ranges@.len() implies (
            #[trigger] ranges@[s]).blocks.0 > 0 && 0 <= ranges@[s].start.0 && ranges@[s].end()
                <= blocks by {
                assert(nodes@.contains_key(roots@[s].0));
            }
            assert forall|s: int, t: int| 0 <= s < t < ranges@.len() implies (
            #[trigger] ranges@[s]).end() <= (#[trigger] ranges@[t]).start.0 by {
                assert(nodes@[roots@[s].0].covered_range.end()
                    <= nodes@[roots@[t].0].covered_range.start.0);
            }
            assert forall|block: int| 0 <= block < blocks implies #[trigger] in_some_range(
                ranges@,
                block,
            ) by {
                assert(has_shard_at(nodes@, roots@, block));
                let s = choose|s: int|
                    0 <= s < roots@.len() && #[trigger] shard_covers(nodes@, roots@, s, block);
                assert(ranges@[s].contains(block));
            }
            assert(tiled);
        }
    }
    ok
}

fn is_head_sound(
    nodes: &IdMap<MetadataNode>,
    specs: &IdMap<DeviceSpec>,
    head: &DeviceHead,
    id: u128,
    block_size: u64,
) -> (ok: bool)
    ensures
        ok == head_wf(nodes@, specs@, *head, id, block_size),
{
    let spec = match specs.get(id) {
        Some(spec) => spec,
        None => return false,
    };
    head.device_id.0 == id && spec.block_size as u64 == block_size
        && spec.logical_blocks.checked_mul(block_size).is_some() && head.shard_roots.len()
        <= u32::MAX as usize && are_shards_sound(nodes, &head.shard_roots, spec.logical_blocks)
}

/// Whether every head of a device is sound.
fn are_heads_sound(
    map: &IdMap<DeviceHead>,
    nodes: &IdMap<MetadataNode>,
    specs: &IdMap<DeviceSpec>,
    block_size: u64,
    next_device_id: u128,
) -> (ok: bool)
    ensures
        ok == forall|id: u128| #[trigger] map@.contains_key(id) ==> id < next_device_id && head_wf(nodes@, specs@, map@[id], id, block_size),
{
    let count: usize = map.len();
    let ghost keys = map.keys();
    let mut next: usize = 0;
    while next < count
        invariant
            next <= count,
            count == keys.len(),
            keys == map.keys(),
            is_walk(keys, map@),
            forall|i: int| 0 <= i < next ==> (#[trigger] keys[i]) < next_device_id && head_wf(nodes@, specs@, map@[keys[i]], (#[trigger] keys[i]), block_size),
        decreases count - next,
    {
        let (id, value) = map.entry_at(next);
        assert(keys[next as int] == id);
        if !(id < next_device_id && is_head_sound(nodes, specs, value, id, block_size)) {
            assert(map@.contains_key(id));
            return false;
        }
        next = next + 1;
    }
    proof {
        assert forall|id: u128| #[trigger] map@.contains_key(id) implies id < next_device_id && head_wf(nodes@, specs@, map@[id], id, block_size) by {
            assert(keys.contains(id));
            let i = keys.index_of(id);
            assert(keys[i] == id);
        }
    }
    true
}

fn is_root_of_shard(
    nodes: &IdMap<MetadataNode>,
    roots: &Vec<MetadataNodeId>,
    shard: u32,
    root: MetadataNodeId,
) -> (ok: bool)
    requires
        forall|s: int| 0 <= s < roots@.len() ==> nodes@.contains_key((#[trigger] roots@[s]).0),
    ensures
        ok == root_of_shard(nodes@, roots@, shard as int, root),
{
    if shard as usize >= roots.len() {
        return false;
    }
    assert(nodes@.contains_key(roots@[shard as int].0));
    match (nodes.get(root.raw()), nodes.get(roots[shard as usize].raw())) {
        (Some(then), Some(now)) => is_same_range(then.covered_range, now.covered_range),
        _ => false,
    }
}

fn is_shard_commit_sound(
    nodes: &IdMap<MetadataNode>,
    heads: &IdMap<DeviceHead>,
    commit: &ShardCommit,
) -> (ok: bool)
    requires
        forall|id: u128| #[trigger]
            heads@.contains_key(id) ==> forall|s: int|
                0 <= s < heads@[id].shard_roots@.len() ==> nodes@.contains_key(
                    (#[trigger] heads@[id].shard_roots@[s]).0,
                ),
    ensures
        ok == shard_commit_wf(nodes@, heads@, *commit),
{
    match heads.get(commit.device_id.raw()) {
        Some(head) => is_root_of_shard(
            nodes,
            &head.shard_roots,
            commit.shard_id.0,
            commit.old_root,
        ) && is_root_of_shard(nodes, &head.shard_roots, commit.shard_id.0, commit.new_root),
        None => true,
    }
}

/// Whether the history of the devices is sound.
fn is_history_sound(
    items: &Vec<ShardCommit>,
    nodes: &IdMap<MetadataNode>,
    heads: &IdMap<DeviceHead>,
) -> (ok: bool)
    requires
        forall|id: u128| #[trigger] heads@.contains_key(id) ==> forall|s: int| 0 <= s < heads@[id].shard_roots@.len() ==> nodes@.contains_key((#[trigger] heads@[id].shard_roots@[s]).0),
    ensures
        ok == forall|i: int| 0 <= i < items@.len() ==> shard_commit_wf(nodes@, heads@, (#[trigger] items@[i])),
{
    let mut next: usize = 0;
    while next < items.len()
        invariant
            next <= items@.len(),
            forall|id: u128| #[trigger] heads@.contains_key(id) ==> forall|s: int| 0 <= s < heads@[id].shard_roots@.len() ==> nodes@.contains_key((#[trigger] heads@[id].shard_roots@[s]).0),
            forall|i: int| 0 <= i < next ==> shard_commit_wf(nodes@, heads@, (#[trigger] items@[i])),
        decreases items@.len() - next,
    {
        let value = &items[next];
        if !(is_shard_commit_sound(nodes, heads, value)) {
            assert(!(shard_commit_wf(nodes@, heads@, items@[next as int])));
            return false;
        }
        next = next + 1;
    }
    true
}

/// Whether the history is of known devices and past commits.
fn is_history_known(
    items: &Vec<ShardCommit>,
    specs: &IdMap<DeviceSpec>,
    next_commit_seq: u64,
) -> (ok: bool)
    ensures
        ok == forall|i: int| 0 <= i < items@.len() ==> specs@.contains_key((#[trigger] items@[i]).device_id.0) && items@[i].commit_seq.0 < next_commit_seq,
{
    let mut next: usize = 0;
    while next < items.len()
        invariant
            next <= items@.len(),
            forall|i: int| 0 <= i < next ==> specs@.contains_key((#[trigger] items@[i]).device_id.0) && items@[i].commit_seq.0 < next_commit_seq,
        decreases items@.len() - next,
    {
        let value = &items[next];
        if !(specs.contains_key(value.device_id.raw()) && value.commit_seq.0 < next_commit_seq) {
            assert(!(specs@.contains_key(items@[next as int].device_id.0) && items@[next as int].commit_seq.0 < next_commit_seq));
            return false;
        }
        next = next + 1;
    }
    true
}

fn is_checkpoint_sound(
    nodes: &IdMap<MetadataNode>,
    specs: &IdMap<DeviceSpec>,
    checkpoint: &Checkpoint,
    block_size: u64,
) -> (ok: bool)
    ensures
        ok == checkpoint_wf(nodes@, specs@, *checkpoint, block_size),
{
    match (&checkpoint.roots, checkpoint.owner) {
        (CheckpointRoots::BlockShard(roots), MappingOwner::BlockDevice(device_id)) => {
            let spec = match specs.get(device_id.raw()) {
                Some(spec) => spec,
                None => return false,
            };
            spec.block_size as u64 == block_size && spec.logical_blocks.checked_mul(
                block_size,
            ).is_some() && roots.len() <= u32::MAX as usize && are_shards_sound(
                nodes,
                roots,
                spec.logical_blocks,
            )
        },
        _ => true,
    }
}

/// Whether every checkpoint is sound.
fn are_checkpoints_sound(
    map: &IdMap<Checkpoint>,
    nodes: &IdMap<MetadataNode>,
    specs: &IdMap<DeviceSpec>,
    block_size: u64,
) -> (ok: bool)
    ensures
        ok == forall|id: u128| #[trigger] map@.contains_key(id) ==> checkpoint_wf(nodes@, specs@, map@[id], block_size),
{
    let count: usize = map.len();
    let ghost keys = map.keys();
    let mut next: usize = 0;
    while next < count
        invariant
            next <= count,
            count == keys.len(),
            keys == map.keys(),
            is_walk(keys, map@),
            forall|i: int| 0 <= i < next ==> checkpoint_wf(nodes@, specs@, map@[keys[i]], block_size),
        decreases count - next,
    {
        let (id, value) = map.entry_at(next);
        assert(keys[next as int] == id);
        if !(is_checkpoint_sound(nodes, specs, value, block_size)) {
            assert(map@.contains_key(id));
            return false;
        }
        next = next + 1;
    }
    proof {
        assert forall|id: u128| #[trigger] map@.contains_key(id) implies checkpoint_wf(nodes@, specs@, map@[id], block_size) by {
            assert(keys.contains(id));
            let i = keys.index_of(id);
            assert(keys[i] == id);
        }
    }
    true
}

/// Whether no deleted device is there.
fn are_deleted_gone(
    map: &IdMap<DeviceHead>,
    heads: &IdMap<DeviceHead>,
) -> (ok: bool)
    ensures
        ok == forall|id: u128| #[trigger] map@.contains_key(id) ==> !heads@.contains_key(id),
{
    let count: usize = map.len();
    let ghost keys = map.keys();
    let mut next: usize = 0;
    while next < count
        invariant
            next <= count,
            count == keys.len(),
            keys == map.keys(),
            is_walk(keys, map@),
            forall|i: int| 0 <= i < next ==> !heads@.contains_key((#[trigger] keys[i])),
        decreases count - next,
    {
        let (id, value) = map.entry_at(next);
        assert(keys[next as int] == id);
        if !(!heads.contains_key(id)) {
            assert(map@.contains_key(id));
            return false;
        }
        next = next + 1;
    }
    proof {
        assert forall|id: u128| #[trigger] map@.contains_key(id) implies !heads@.contains_key(id) by {
            assert(keys.contains(id));
            let i = keys.index_of(id);
            assert(keys[i] == id);
        }
    }
    true
}

/// Whether no device has a number that is still to come.
fn are_specs_numbered(
    map: &IdMap<DeviceSpec>,
    next_device_id: u128,
) -> (ok: bool)
    ensures
        ok == forall|id: u128| #[trigger] map@.contains_key(id) ==> id < next_device_id,
{
    let count: usize = map.len();
    let ghost keys = map.keys();
    let mut next: usize = 0;
    while next < count
        invariant
            next <= count,
            count == keys.len(),
            keys == map.keys(),
            is_walk(keys, map@),
            forall|i: int| 0 <= i < next ==> (#[trigger] keys[i]) < next_device_id,
        decreases count - next,
    {
        let (id, value) = map.entry_at(next);
        assert(keys[next as int] == id);
        if !(id < next_device_id) {
            assert(map@.contains_key(id));
            return false;
        }
        next = next + 1;
    }
    proof {
        assert forall|id: u128| #[trigger] map@.contains_key(id) implies id < next_device_id by {
            assert(keys.contains(id));
            let i = keys.index_of(id);
            assert(keys[i] == id);
        }
    }
    true
}

/// Whether every publish ticket has its own number, and none is still to come.
fn are_tickets_sound(
    map: &IdMap<AppendPublishTicketRecord>,
    next_ticket_id: u128,
) -> (ok: bool)
    ensures
        ok == forall|id: u128| #[trigger]
            map@.contains_key(id) ==> id < next_ticket_id && map@[id].ticket.ticket_id.0 == id,
{
    let count: usize = map.len();
    let ghost keys = map.keys();
    let mut next: usize = 0;
    while next < count
        invariant
            next <= count,
            count == keys.len(),
            keys == map.keys(),
            is_walk(keys, map@),
            forall|i: int|
                0 <= i < next ==> (#[trigger] keys[i]) < next_ticket_id
                    && map@[keys[i]].ticket.ticket_id.0 == keys[i],
        decreases count - next,
    {
        let (id, value) = map.entry_at(next);
        assert(keys[next as int] == id);
        if !(id < next_ticket_id && value.ticket.ticket_id.0 == id) {
            assert(map@.contains_key(id));
            return false;
        }
        next = next + 1;
    }
    proof {
        assert forall|id: u128| #[trigger] map@.contains_key(id) implies id < next_ticket_id
            && map@[id].ticket.ticket_id.0 == id by {
            assert(keys.contains(id));
            let i = keys.index_of(id);
            assert(keys[i] == id);
        }
    }
    true
}

/// Whether no device is ahead of the commits.
fn are_heads_committed(
    map: &IdMap<DeviceHead>,
    next_commit_seq: u64,
) -> (ok: bool)
    ensures
        ok == forall|id: u128| #[trigger] map@.contains_key(id) ==> map@[id].latest_commit.0 < next_commit_seq,
{
    let count: usize = map.len();
    let ghost keys = map.keys();
    let mut next: usize = 0;
    while next < count
        invariant
            next <= count,
            count == keys.len(),
            keys == map.keys(),
            is_walk(keys, map@),
            forall|i: int| 0 <= i < next ==> map@[keys[i]].latest_commit.0 < next_commit_seq,
        decreases count - next,
    {
        let (id, value) = map.entry_at(next);
        assert(keys[next as int] == id);
        if !(value.latest_commit.0 < next_commit_seq) {
            assert(map@.contains_key(id));
            return false;
        }
        next = next + 1;
    }
    proof {
        assert forall|id: u128| #[trigger] map@.contains_key(id) implies map@[id].latest_commit.0 < next_commit_seq by {
            assert(keys.contains(id));
            let i = keys.index_of(id);
            assert(keys[i] == id);
        }
    }
    true
}

fn is_file_sound(
    nodes: &IdMap<MetadataNode>,
    file: &KeyspaceFile,
    id: u128,
    block_size: u64,
    next_file_id: u128,
) -> (ok: bool)
    requires
        tree_wf(nodes@, block_size),
    ensures
        ok == file_wf(nodes@, *file, id, block_size, next_file_id),
{
    match nodes.get(file.head.root.raw()) {
        Some(node) => {
            let covered = node.covered_range;
            proof {
                assert(node_wf(nodes@, file.head.root.0, block_size));
                assert(covered.end() <= u64::MAX) by (nonlinear_arith)
                    requires
                        covered.end() * block_size <= u64::MAX,
                        block_size >= 1,
                        covered.end() >= 0,
                ;
            }
            file.head.file_id.0 == id && id < next_file_id && covered.start.0 == 0
                && file.head.size <= (covered.start.0 + covered.blocks.0) * block_size
        },
        None => false,
    }
}

/// Whether every file of a catalog shard is sound.
fn are_files_sound(
    map: &IdMap<KeyspaceFile>,
    nodes: &IdMap<MetadataNode>,
    block_size: u64,
    next_file_id: u128,
) -> (ok: bool)
    requires
        tree_wf(nodes@, block_size),
    ensures
        ok == forall|id: u128| #[trigger] map@.contains_key(id) ==> file_wf(nodes@, map@[id], id, block_size, next_file_id),
{
    let count: usize = map.len();
    let ghost keys = map.keys();
    let mut next: usize = 0;
    while next < count
        invariant
            next <= count,
            count == keys.len(),
            keys == map.keys(),
            is_walk(keys, map@),
            tree_wf(nodes@, block_size),
            forall|i: int| 0 <= i < next ==> file_wf(nodes@, map@[keys[i]], (#[trigger] keys[i]), block_size, next_file_id),
        decreases count - next,
    {
        let (id, value) = map.entry_at(next);
        assert(keys[next as int] == id);
        if !(is_file_sound(nodes, value, id, block_size, next_file_id)) {
            assert(map@.contains_key(id));
            return false;
        }
        next = next + 1;
    }
    proof {
        assert forall|id: u128| #[trigger] map@.contains_key(id) implies file_wf(nodes@, map@[id], id, block_size, next_file_id) by {
            assert(keys.contains(id));
            let i = keys.index_of(id);
            assert(keys[i] == id);
        }
    }
    true
}

/// Whether every catalog shard is sound.
fn is_catalog_sound(
    map: &IdMap<KeyspaceCatalogShard>,
    nodes: &IdMap<MetadataNode>,
    block_size: u64,
    next_file_id: u128,
    next_shard_id: u128,
) -> (ok: bool)
    requires
        tree_wf(nodes@, block_size),
    ensures
        ok == forall|id: u128| #[trigger] map@.contains_key(id) ==> id < next_shard_id && catalog_shard_wf(nodes@, map@[id], block_size, next_file_id),
{
    let count: usize = map.len();
    let ghost keys = map.keys();
    let mut next: usize = 0;
    while next < count
        invariant
            next <= count,
            count == keys.len(),
            keys == map.keys(),
            is_walk(keys, map@),
            tree_wf(nodes@, block_size),
            forall|i: int| 0 <= i < next ==> (#[trigger] keys[i]) < next_shard_id && catalog_shard_wf(nodes@, map@[keys[i]], block_size, next_file_id),
        decreases count - next,
    {
        let (id, value) = map.entry_at(next);
        assert(keys[next as int] == id);
        if !(id < next_shard_id && are_files_sound(&value.files, nodes, block_size, next_file_id)) {
            assert(map@.contains_key(id));
            return false;
        }
        next = next + 1;
    }
    proof {
        assert forall|id: u128| #[trigger] map@.contains_key(id) implies id < next_shard_id && catalog_shard_wf(nodes@, map@[id], block_size, next_file_id) by {
            assert(keys.contains(id));
            let i = keys.index_of(id);
            assert(keys[i] == id);
        }
    }
    true
}

/// Whether the shards of a catalog are there.
fn are_roots_there(
    items: &Vec<KeyspaceCatalogShardId>,
    shards: &IdMap<KeyspaceCatalogShard>,
) -> (ok: bool)
    ensures
        ok == forall|i: int| 0 <= i < items@.len() ==> shards@.contains_key((#[trigger] items@[i]).0),
{
    let mut next: usize = 0;
    while next < items.len()
        invariant
            next <= items@.len(),
            forall|i: int| 0 <= i < next ==> shards@.contains_key((#[trigger] items@[i]).0),
        decreases items@.len() - next,
    {
        let value = &items[next];
        if !(shards.contains_key(value.raw())) {
            assert(!(shards@.contains_key(items@[next as int].0)));
            return false;
        }
        next = next + 1;
    }
    true
}

fn are_catalog_roots_sound(
    shards: &IdMap<KeyspaceCatalogShard>,
    roots: &Vec<KeyspaceCatalogShardId>,
) -> (ok: bool)
    ensures
        ok == catalog_roots_wf(shards@, roots@),
{
    0 < roots.len() && roots.len() <= u32::MAX as usize && are_roots_there(roots, shards)
}

/// Whether every head of a keyspace is sound.
fn are_keyspaces_sound(
    map: &IdMap<KeyspaceHead>,
    shards: &IdMap<KeyspaceCatalogShard>,
    next_keyspace_id: u128,
) -> (ok: bool)
    ensures
        ok == forall|id: u128| #[trigger] map@.contains_key(id) ==> id < next_keyspace_id && map@[id].keyspace_id.0 == id && catalog_roots_wf(shards@, map@[id].shard_roots@),
{
    let count: usize = map.len();
    let ghost keys = map.keys();
    let mut next: usize = 0;
    while next < count
        invariant
            next <= count,
            count == keys.len(),
            keys == map.keys(),
            is_walk(keys, map@),
            forall|i: int| 0 <= i < next ==> (#[trigger] keys[i]) < next_keyspace_id && map@[keys[i]].keyspace_id.0 == (#[trigger] keys[i]) && catalog_roots_wf(shards@, map@[keys[i]].shard_roots@),
        decreases count - next,
    {
        let (id, value) = map.entry_at(next);
        assert(keys[next as int] == id);
        if !(id < next_keyspace_id && value.keyspace_id.0 == id && are_catalog_roots_sound(shards, &value.shard_roots)) {
            assert(map@.contains_key(id));
            return false;
        }
        next = next + 1;
    }
    proof {
        assert forall|id: u128| #[trigger] map@.contains_key(id) implies id < next_keyspace_id && map@[id].keyspace_id.0 == id && catalog_roots_wf(shards@, map@[id].shard_roots@) by {
            assert(keys.contains(id));
            let i = keys.index_of(id);
            assert(keys[i] == id);
        }
    }
    true
}

/// Whether every kept root of a keyspace is sound.
fn are_keyspace_roots_sound(
    map: &IdMap<KeyspaceRoot>,
    shards: &IdMap<KeyspaceCatalogShard>,
    next_root_id: u128,
) -> (ok: bool)
    ensures
        ok == forall|id: u128| #[trigger] map@.contains_key(id) ==> id < next_root_id && catalog_roots_wf(shards@, map@[id].shard_roots@),
{
    let count: usize = map.len();
    let ghost keys = map.keys();
    let mut next: usize = 0;
    while next < count
        invariant
            next <= count,
            count == keys.len(),
            keys == map.keys(),
            is_walk(keys, map@),
            forall|i: int| 0 <= i < next ==> (#[trigger] keys[i]) < next_root_id && catalog_roots_wf(shards@, map@[keys[i]].shard_roots@),
        decreases count - next,
    {
        let (id, value) = map.entry_at(next);
        assert(keys[next as int] == id);
        if !(id < next_root_id && are_catalog_roots_sound(shards, &value.shard_roots)) {
            assert(map@.contains_key(id));
            return false;
        }
        next = next + 1;
    }
    proof {
        assert forall|id: u128| #[trigger] map@.contains_key(id) implies id < next_root_id && catalog_roots_wf(shards@, map@[id].shard_roots@) by {
            assert(keys.contains(id));
            let i = keys.index_of(id);
            assert(keys[i] == id);
        }
    }
    true
}

fn is_stream_record_sound(record: &AppendStreamRunRecord, logs: &AppendRunLogs) -> (ok: bool)
    ensures
        ok == stream_record_wf(logs@, *record),
{
    record.len > 0 && record.offset <= u64::MAX - record.len && record.run.file_offset_start
        == record.offset && record.run.payload_len == record.len
        && record.run.log_payload_offset <= u64::MAX - record.len && logs.holds(
        record.run.storage_node,
        record.run.log_id,
        record.run.log_payload_offset,
        record.len,
        record.run.integrity,
    )
}

/// Whether the records of a stream are in the logs.
fn are_stream_records_sound(
    items: &Vec<AppendStreamRunRecord>,
    logs: &AppendRunLogs,
) -> (ok: bool)
    ensures
        ok == forall|i: int| 0 <= i < items@.len() ==> stream_record_wf(logs@, (#[trigger] items@[i])),
{
    let mut next: usize = 0;
    while next < items.len()
        invariant
            next <= items@.len(),
            forall|i: int| 0 <= i < next ==> stream_record_wf(logs@, (#[trigger] items@[i])),
        decreases items@.len() - next,
    {
        let value = &items[next];
        if !(is_stream_record_sound(value, logs)) {
            assert(!(stream_record_wf(logs@, items@[next as int])));
            return false;
        }
        next = next + 1;
    }
    true
}

/// Whether the records of a stream end within reach.
fn do_records_end(
    items: &Vec<AppendStreamRunRecord>,
) -> (ok: bool)
    ensures
        ok == forall|i: int| 0 <= i < items@.len() ==> (#[trigger] items@[i]).offset + items@[i].len <= u64::MAX,
{
    let mut next: usize = 0;
    while next < items.len()
        invariant
            next <= items@.len(),
            forall|i: int| 0 <= i < next ==> (#[trigger] items@[i]).offset + items@[i].len <= u64::MAX,
        decreases items@.len() - next,
    {
        let value = &items[next];
        if !(value.offset <= u64::MAX - value.len) {
            assert(!(items@[next as int].offset + items@[next as int].len <= u64::MAX));
            return false;
        }
        next = next + 1;
    }
    true
}

fn are_records_contiguous(records: &Vec<AppendStreamRunRecord>, start: u64, end: u64) -> (ok: bool)
    requires
        forall|i: int|
            0 <= i < records@.len() ==> (#[trigger] records@[i]).offset + records@[i].len
                <= u64::MAX,
    ensures
        ok == records_contiguous(records@, start as int, end as int),
{
    let mut at: u64 = start;
    let mut next: usize = 0;
    while next < records.len()
        invariant
            next <= records@.len(),
            forall|i: int|
                0 <= i < records@.len() ==> (#[trigger] records@[i]).offset + records@[i].len
                    <= u64::MAX,
            next == 0 ==> at == start,
            next > 0 ==> records@[0].offset == start && at == records@[next - 1].offset
                + records@[next - 1].len,
            forall|i: int, j: int|
                0 <= i && j == i + 1 && j < next ==> (#[trigger] records@[i]).offset
                    + records@[i].len == (#[trigger] records@[j]).offset,
        decreases records@.len() - next,
    {
        let record = &records[next];
        let ghost here = next as int;
        if record.offset != at {
            proof {
                if next > 0 && records_contiguous(records@, start as int, end as int) {
                    assert(records@[here - 1].offset + records@[here - 1].len
                        == records@[here].offset);
                }
            }
            return false;
        }
        at = record.offset + record.len;
        next = next + 1;
    }
    at == end
}

fn is_stream_sound(stream: &LiveAppendStream, id: u128, logs: &AppendRunLogs) -> (ok: bool)
    ensures
        ok == stream_wf(logs@, *stream, id),
{
    let state = &stream.state;
    let active = match state.status {
        AppendStreamStatus::Active => true,
        _ => false,
    };
    state.stream_id.0 == id && state.published_through <= stream.accepted_tail
        && state.visible_base_size <= state.published_through && state.reserved_tail
        == stream.accepted_tail && do_records_end(&state.records) && (!active
        || are_stream_records_sound(&state.records, logs)) && are_records_contiguous(
        &state.records,
        state.published_through,
        stream.accepted_tail,
    )
}

/// Whether every append stream is sound.
fn are_streams_sound(
    map: &IdMap<LiveAppendStream>,
    next_stream_id: u128,
    logs: &AppendRunLogs,
) -> (ok: bool)
    ensures
        ok == forall|id: u128| #[trigger] map@.contains_key(id) ==> id < next_stream_id && stream_wf(logs@, map@[id], id),
{
    let count: usize = map.len();
    let ghost keys = map.keys();
    let mut next: usize = 0;
    while next < count
        invariant
            next <= count,
            count == keys.len(),
            keys == map.keys(),
            is_walk(keys, map@),
            forall|i: int| 0 <= i < next ==> (#[trigger] keys[i]) < next_stream_id && stream_wf(logs@, map@[keys[i]], (#[trigger] keys[i])),
        decreases count - next,
    {
        let (id, value) = map.entry_at(next);
        assert(keys[next as int] == id);
        if !(id < next_stream_id && is_stream_sound(value, id, logs)) {
            assert(map@.contains_key(id));
            return false;
        }
        next = next + 1;
    }
    proof {
        assert forall|id: u128| #[trigger] map@.contains_key(id) implies id < next_stream_id && stream_wf(logs@, map@[id], id) by {
            assert(keys.contains(id));
            let i = keys.index_of(id);
            assert(keys[i] == id);
        }
    }
    true
}

fn are_devices_sound(metadata: &MetadataInner, block_size: u64) -> (ok: bool)
    requires
        block_size > 0,
    ensures
        ok == metadata.devices_wf(block_size),
{
    if !are_trees_sound(&metadata.trees, block_size) {
        return false;
    }
    let nodes = &metadata.trees.nodes;
    let specs = &metadata.device_specs;
    if !are_heads_sound(
        &metadata.device_heads,
        nodes,
        specs,
        block_size,
        metadata.next_device_id,
    ) || !are_heads_sound(
        &metadata.deleted_device_heads,
        nodes,
        specs,
        block_size,
        metadata.next_device_id,
    ) {
        return false;
    }
    proof {
        lemma_heads_rooted(
            nodes@,
            specs@,
            metadata.device_heads@,
            block_size,
            metadata.next_device_id,
        );
        lemma_heads_rooted(
            nodes@,
            specs@,
            metadata.deleted_device_heads@,
            block_size,
            metadata.next_device_id,
        );
    }
    is_history_sound(&metadata.shard_commits, nodes, &metadata.device_heads) && is_history_sound(
        &metadata.shard_commits,
        nodes,
        &metadata.deleted_device_heads,
    ) && are_deleted_gone(&metadata.deleted_device_heads, &metadata.device_heads)
        && are_checkpoints_sound(&metadata.checkpoints, nodes, specs, block_size)
        && are_specs_numbered(specs, metadata.next_device_id) && is_history_known(
        &metadata.shard_commits,
        specs,
        metadata.next_commit_seq,
    ) && metadata.next_commit_seq >= 1 && are_heads_committed(
        &metadata.device_heads,
        metadata.next_commit_seq,
    )
}

/// The roots of sound heads are there.
proof fn lemma_heads_rooted(
    nodes: Map<u128, MetadataNode>,
    specs: Map<u128, DeviceSpec>,
    heads: Map<u128, DeviceHead>,
    block_size: u64,
    next_device_id: u128,
)
    requires
        heads_wf(nodes, specs, heads, block_size, next_device_id),
    ensures
        forall|id: u128| #[trigger]
            heads.contains_key(id) ==> forall|s: int|
                0 <= s < heads[id].shard_roots@.len() ==> nodes.contains_key(
                    (#[trigger] heads[id].shard_roots@[s]).0,
                ),
{
    assert forall|id: u128| #[trigger] heads.contains_key(id) implies forall|s: int|
        0 <= s < heads[id].shard_roots@.len() ==> nodes.contains_key(
            (#[trigger] heads[id].shard_roots@[s]).0,
        ) by {
        assert(head_wf(nodes, specs, heads[id], id, block_size));
    }
}

fn are_keyspace_files_sound(metadata: &MetadataInner, block_size: u64) -> (ok: bool)
    requires
        tree_wf(metadata.nodes(), block_size),
    ensures
        ok == metadata.files_wf(block_size),
{
    let shards = &metadata.keyspace_catalog_shards;
    is_catalog_sound(
        shards,
        &metadata.trees.nodes,
        block_size,
        metadata.next_file_id,
        metadata.next_keyspace_catalog_shard_id,
    ) && are_keyspaces_sound(&metadata.keyspace_heads, shards, metadata.next_keyspace_id)
        && are_keyspace_roots_sound(
        &metadata.keyspace_roots,
        shards,
        metadata.next_keyspace_root_id,
    ) && are_tickets_sound(
        &metadata.append_publish_tickets,
        metadata.next_append_publish_ticket_id,
    )
}

impl DurableStoreState {
    /// Whether all parts are sound and fit each other.
    pub fn is_sound(&self) -> (sound: bool)
        ensures
            sound == (self.config.block_size > 0 && self.wf()),
    {
        let block_size: u64 = self.config.block_size as u64;
        if block_size == 0 || self.storage_nodes.node_ids.len() == 0 || !are_devices_sound(
            &self.metadata,
            block_size,
        ) {
            return false;
        }
        let nodes = &self.metadata.trees.nodes;
        let segments = &self.storage_nodes.segments;
        are_keyspace_files_sound(&self.metadata, block_size) && are_segments_sound(
            segments,
            self.storage_nodes.next_segment_id,
            block_size,
        ) && is_tree_backed(nodes, segments) && are_tree_runs_backed(
            nodes,
            &self.append_run_logs,
        ) && are_streams_sound(
            &self.metadata.append_streams,
            self.metadata.next_append_stream_id,
            &self.append_run_logs,
        )
    }
}

impl LocalCoordinator {
    /// The store that a durable copy holds, if the copy is sound.
    pub fn open_durable_state(image: DurableStoreState) -> (result: Result<
        LocalCoordinator,
        StorageError,
    >)
        ensures
            result is Ok <==> image.config.valid() && image.wf(),
            result matches Ok(store) ==> store.opened_from(&image),
            result matches Err(error) ==> error == if image.config.valid() {
                StorageError::Corrupt { message: "stored state is not sound" }
            } else {
                StorageError::InvalidArgument { message: image.config.fault() }
            },
    {
        match image.config.validate() {
            Ok(()) => {},
            Err(error) => return Err(error),
        }
        if !image.is_sound() {
            return Err(StorageError::corrupt("stored state is not sound"));
        }
        LocalCoordinator::from_durable_state(image)
    }
}

} // verus!
