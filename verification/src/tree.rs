//! Copy-on-write metadata trees.
use vstd::prelude::*;

use crate::block_api::BlockRange;
use crate::id::{BlockIndex, MetadataNodeId, SegmentId};
use crate::idmap::IdMap;
use crate::leaf::{extent_at, extents_wf, leaf_at, leaf_wf, LogByte, SegmentBlock};
use crate::metadata_records::{MetadataChild, MetadataNode, MetadataNodeKind};
use crate::storage_nodes::{entry_backed, SegmentRecord};

verus! {

/// A segment whose block `b - segment_base` stands for logical block `b`.
#[derive(Clone, Copy, Debug, PartialEq, Eq, Structural)]
pub struct SegmentReplacement {
    pub segment_id: SegmentId,
    pub segment_base: BlockIndex,
}

/// A range of a tree and what is put in its place; nothing leaves a hole.
#[derive(Clone, Copy, Debug, PartialEq, Eq, Structural)]
pub struct TreeRangeEdit {
    pub range: BlockRange,
    pub replacement: Option<SegmentReplacement>,
}

/// The root of an edited tree.
#[derive(Clone, Copy, Debug, PartialEq, Eq, Structural)]
pub struct TreeEditResult {
    pub root: MetadataNodeId,
    pub changed: bool,
}

/// The immutable nodes of all trees.
#[derive(Debug)]
pub struct TreeStore {
    pub nodes: IdMap<MetadataNode>,
    pub next_metadata_node_id: u128,
}

/// Whether some child covers `block`.
pub open spec fn has_child_at(children: Seq<MetadataChild>, block: int) -> bool {
    exists|i: int| 0 <= i < children.len() && (#[trigger] children[i]).range.contains(block)
}

/// The place of the child that covers `block`.
pub open spec fn child_index(children: Seq<MetadataChild>, block: int) -> int {
    choose|i: int| 0 <= i < children.len() && (#[trigger] children[i]).range.contains(block)
}

/// The segment block that a tree has for a logical block.
pub open spec fn block_at(nodes: Map<u128, MetadataNode>, id: u128, block: int) -> Option<
    SegmentBlock,
>
    decreases id,
{
    if !nodes.contains_key(id) {
        None
    } else {
        match nodes[id].kind {
            MetadataNodeKind::Leaf { entries, .. } => leaf_at(entries@, block),
            MetadataNodeKind::Internal { children } => {
                if has_child_at(children@, block) {
                    let child = children@[child_index(children@, block)];
                    if child.node_id.0 < id {
                        block_at(nodes, child.node_id.0, block)
                    } else {
                        None
                    }
                } else {
                    None
                }
            },
        }
    }
}

/// The log byte that a tree has for a byte.
pub open spec fn run_at(
    nodes: Map<u128, MetadataNode>,
    id: u128,
    block_size: u64,
    byte: int,
) -> Option<LogByte>
    decreases id,
{
    if !nodes.contains_key(id) {
        None
    } else {
        match nodes[id].kind {
            MetadataNodeKind::Leaf { run_extents, .. } => extent_at(run_extents@, byte),
            MetadataNodeKind::Internal { children } => {
                let block = byte / block_size as int;
                if has_child_at(children@, block) {
                    let child = children@[child_index(children@, block)];
                    if child.node_id.0 < id {
                        run_at(nodes, child.node_id.0, block_size, byte)
                    } else {
                        None
                    }
                } else {
                    None
                }
            },
        }
    }
}

/// Whether the children are older nodes that tile the covered range.
pub open spec fn children_wf(
    nodes: Map<u128, MetadataNode>,
    children: Seq<MetadataChild>,
    covered: BlockRange,
    id: u128,
) -> bool {
    &&& forall|i: int|
        0 <= i < children.len() ==> nodes.contains_key((#[trigger] children[i]).node_id.0)
            && children[i].node_id.0 < id && nodes[children[i].node_id.0].covered_range
            == children[i].range && children[i].range.blocks.0 > 0
    &&& children_tile(children, covered)
}

/// Whether the children's ranges are apart and together make up the range.
pub open spec fn children_tile(children: Seq<MetadataChild>, covered: BlockRange) -> bool {
    &&& forall|i: int|
        0 <= i < children.len() ==> covered.start.0 <= (#[trigger] children[i]).range.start.0
            && children[i].range.end() <= covered.end()
    &&& forall|i: int, j: int|
        0 <= i < j < children.len() ==> (#[trigger] children[i]).range.end() <= (
        #[trigger] children[j]).range.start.0
    &&& forall|block: int| covered.contains(block) ==> #[trigger] has_child_at(children, block)
}

pub open spec fn node_wf(nodes: Map<u128, MetadataNode>, id: u128, block_size: u64) -> bool {
    let node = nodes[id];
    &&& node.node_id.0 == id
    &&& node.covered_range.end() * block_size <= u64::MAX
    &&& match node.kind {
        MetadataNodeKind::Leaf { entries, run_extents } => {
            &&& leaf_wf(entries@, node.covered_range)
            &&& extents_wf(
                run_extents@,
                node.covered_range.start.0 * block_size,
                node.covered_range.end() * block_size,
            )
        },
        MetadataNodeKind::Internal { children } => children_wf(
            nodes,
            children@,
            node.covered_range,
            id,
        ),
    }
}

/// Whether every node is sound.
pub open spec fn tree_wf(nodes: Map<u128, MetadataNode>, block_size: u64) -> bool {
    &&& block_size > 0
    &&& forall|id: u128| #[trigger] nodes.contains_key(id) ==> node_wf(nodes, id, block_size)
}

/// Whether every leaf entry of every node is backed by a segment.
pub open spec fn tree_backed(
    nodes: Map<u128, MetadataNode>,
    segments: Map<u128, SegmentRecord>,
) -> bool {
    forall|id: u128| #[trigger] nodes.contains_key(id) ==> node_backed(nodes[id], segments)
}

pub open spec fn node_backed(node: MetadataNode, segments: Map<u128, SegmentRecord>) -> bool {
    node.kind matches MetadataNodeKind::Leaf { entries, .. } ==> forall|i: int|
        0 <= i < entries@.len() ==> entry_backed(segments, #[trigger] entries@[i])
}

/// Whether all nodes of `before` are still there, unchanged.
pub open spec fn keeps_nodes(
    before: Map<u128, MetadataNode>,
    after: Map<u128, MetadataNode>,
) -> bool {
    forall|id: u128| #[trigger]
        before.contains_key(id) ==> after.contains_key(id) && after[id] == before[id]
}

impl TreeStore {
    pub open spec fn wf(&self, block_size: u64) -> bool {
        &&& tree_wf(self.nodes@, block_size)
        &&& forall|id: u128| #[trigger]
            self.nodes@.contains_key(id) ==> id < self.next_metadata_node_id
    }

    /// How many identifiers have been used up without a node that is still
    /// there.
    pub open spec fn spare(&self) -> int {
        self.next_metadata_node_id - self.nodes.keys().len()
    }

    /// What only adds nodes uses up no more identifiers than there can be nodes.
    pub proof fn lemma_few_new(&self, before: &TreeStore)
        requires
            self.spare() == before.spare(),
        ensures
            self.next_metadata_node_id <= before.next_metadata_node_id + usize::MAX,
    {
        self.nodes.lemma_countable();
    }
}

/// Only one child of a sound node covers a block.
pub proof fn lemma_child_unique(
    children: Seq<MetadataChild>,
    covered: BlockRange,
    i: int,
    block: int,
)
    requires
        children_tile(children, covered),
        0 <= i < children.len(),
        children[i].range.contains(block),
    ensures
        has_child_at(children, block),
        child_index(children, block) == i,
{
    let j = child_index(children, block);
    assert(has_child_at(children, block));
    if i < j {
        assert(children[i].range.end() <= children[j].range.start.0);
    } else if j < i {
        assert(children[j].range.end() <= children[i].range.start.0);
    }
}

proof fn lemma_block_frame(
    before: Map<u128, MetadataNode>,
    after: Map<u128, MetadataNode>,
    block_size: u64,
    id: u128,
    block: int,
)
    requires
        tree_wf(before, block_size),
        keeps_nodes(before, after),
        before.contains_key(id),
    ensures
        block_at(after, id, block) == block_at(before, id, block),
    decreases id,
{
    assert(node_wf(before, id, block_size));
    if let MetadataNodeKind::Internal { children } = before[id].kind {
        if has_child_at(children@, block) {
            let child = children@[child_index(children@, block)];
            lemma_block_frame(before, after, block_size, child.node_id.0, block);
        }
    }
}

proof fn lemma_run_frame(
    before: Map<u128, MetadataNode>,
    after: Map<u128, MetadataNode>,
    block_size: u64,
    id: u128,
    byte: int,
)
    requires
        tree_wf(before, block_size),
        keeps_nodes(before, after),
        before.contains_key(id),
    ensures
        run_at(after, id, block_size, byte) == run_at(before, id, block_size, byte),
    decreases id,
{
    assert(node_wf(before, id, block_size));
    if let MetadataNodeKind::Internal { children } = before[id].kind {
        let block = byte / block_size as int;
        if has_child_at(children@, block) {
            let child = children@[child_index(children@, block)];
            lemma_run_frame(before, after, block_size, child.node_id.0, byte);
        }
    }
}

/// New nodes do not change what old trees hold.
pub proof fn law_trees_are_immutable(
    before: Map<u128, MetadataNode>,
    after: Map<u128, MetadataNode>,
    block_size: u64,
    id: u128,
)
    requires
        tree_wf(before, block_size),
        keeps_nodes(before, after),
        before.contains_key(id),
    ensures
        forall|block: int| #[trigger] block_at(after, id, block) == block_at(before, id, block),
        forall|byte: int| #[trigger]
            run_at(after, id, block_size, byte) == run_at(before, id, block_size, byte),
{
    assert forall|block: int| #[trigger] block_at(after, id, block) == block_at(
        before,
        id,
        block,
    ) by {
        lemma_block_frame(before, after, block_size, id, block);
    }
    assert forall|byte: int| #[trigger] run_at(after, id, block_size, byte) == run_at(
        before,
        id,
        block_size,
        byte,
    ) by {
        lemma_run_frame(before, after, block_size, id, byte);
    }
}

pub fn copy_vec<T: Copy>(items: &Vec<T>) -> (copy: Vec<T>)
    ensures
        copy@ == items@,
{
    let mut copy: Vec<T> = Vec::new();
    let mut i: usize = 0;
    while i < items.len()
        invariant
            i <= items@.len(),
            copy@ == items@.take(i as int),
        decreases items@.len() - i,
    {
        copy.push(items[i]);
        assert(copy@ =~= items@.take(i + 1));
        i = i + 1;
    }
    assert(items@.take(items@.len() as int) =~= items@);
    copy
}

impl TreeRangeEdit {
    pub open spec fn wf(self) -> bool {
        &&& self.range.blocks.0 > 0
        &&& self.range.end() <= u64::MAX
        &&& self.replacement matches Some(replacement) ==> replacement.segment_base.0
            <= self.range.start.0
    }

    /// What the edit puts at a block of its range.
    pub open spec fn value_at(self, block: int) -> Option<SegmentBlock> {
        match self.replacement {
            Some(replacement) => Some(
                SegmentBlock {
                    segment_id: replacement.segment_id,
                    offset: block - replacement.segment_base.0,
                },
            ),
            None => None,
        }
    }

    /// Whether a segment with a receipt holds all blocks that the edit puts in.
    pub open spec fn backed(self, segments: Map<u128, SegmentRecord>) -> bool {
        self.replacement matches Some(replacement) ==> {
            &&& segments.contains_key(replacement.segment_id.0)
            &&& segments[replacement.segment_id.0].entry.receipt is Some
            &&& self.range.end() - replacement.segment_base.0
                <= segments[replacement.segment_id.0].entry.receipt->0.descriptor.blocks.0
        }
    }
}

/// Whether the edits are sound, ascending and apart from each other.
pub open spec fn edits_wf(edits: Seq<TreeRangeEdit>) -> bool {
    &&& forall|i: int| 0 <= i < edits.len() ==> (#[trigger] edits[i]).wf()
    &&& forall|i: int, j: int|
        0 <= i < j < edits.len() ==> (#[trigger] edits[i]).range.end() <= (
        #[trigger] edits[j]).range.start.0
}

pub open spec fn edits_backed(
    edits: Seq<TreeRangeEdit>,
    segments: Map<u128, SegmentRecord>,
) -> bool {
    forall|i: int| 0 <= i < edits.len() ==> (#[trigger] edits[i]).backed(segments)
}

/// What the edits make of a block that held `before`.
pub open spec fn edited(
    edits: Seq<TreeRangeEdit>,
    block: int,
    before: Option<SegmentBlock>,
) -> Option<SegmentBlock>
    decreases edits.len(),
{
    if edits.len() == 0 {
        before
    } else if edits.last().range.contains(block) {
        edits.last().value_at(block)
    } else {
        edited(edits.drop_last(), block, before)
    }
}

/// Whether some edit covers a block.
pub open spec fn is_edited(edits: Seq<TreeRangeEdit>, block: int) -> bool {
    exists|i: int| 0 <= i < edits.len() && (#[trigger] edits[i]).range.contains(block)
}

} // verus!
