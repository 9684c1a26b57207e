//! Looking over metadata trees: the nodes of one, whether it keeps to the
//! configured shape, and how it reads as text.
use vstd::prelude::*;
use vstd::string::StringExecFns;

use crate::config::LocalStoreConfig;
use crate::coordinator::LocalCoordinator;
use crate::error::StorageError;
use crate::id::MetadataNodeId;
use crate::idmap::IdMap;
use crate::metadata_records::{
    LeafEntry, MetadataChild, MetadataNode, MetadataNodeKind, RunBackedFileExtent,
};
use crate::text::{decimal, push_decimal, push_spaces, spaces};
use crate::tree::{children_wf, node_wf, tree_wf};

verus! {

/// What a walk over a metadata tree counted.
#[derive(Clone, Copy, Debug, PartialEq, Eq)]
pub struct MetadataTreeStats {
    pub nodes: usize,
    pub leaves: usize,
    pub max_depth: usize,
}

/// The nodes of a tree, each before those below it.
pub open spec fn tree_ids(nodes: Map<u128, MetadataNode>, id: u128) -> Seq<MetadataNodeId>
    decreases id, 1nat, 0nat,
{
    seq![MetadataNodeId(id)] + match nodes[id].kind {
        MetadataNodeKind::Leaf { .. } => Seq::<MetadataNodeId>::empty(),
        MetadataNodeKind::Internal { children } => child_ids(nodes, children@, id),
    }
}

/// The nodes of some subtrees.
pub open spec fn child_ids(
    nodes: Map<u128, MetadataNode>,
    children: Seq<MetadataChild>,
    below: u128,
) -> Seq<MetadataNodeId>
    decreases below, 0nat, children.len(),
{
    if children.len() == 0 {
        Seq::empty()
    } else {
        child_ids(nodes, children.drop_last(), below) + if children.last().node_id.0 < below {
            tree_ids(nodes, children.last().node_id.0)
        } else {
            Seq::empty()
        }
    }
}

/// How many nodes stand on the longest way down.
pub open spec fn tree_depth(nodes: Map<u128, MetadataNode>, id: u128) -> nat
    decreases id, 1nat, 0nat,
{
    1 + match nodes[id].kind {
        MetadataNodeKind::Leaf { .. } => 0,
        MetadataNodeKind::Internal { children } => child_depth(nodes, children@, id),
    }
}

/// The depth of the deepest of some subtrees.
pub open spec fn child_depth(
    nodes: Map<u128, MetadataNode>,
    children: Seq<MetadataChild>,
    below: u128,
) -> nat
    decreases below, 0nat, children.len(),
{
    if children.len() == 0 {
        0
    } else {
        let before = child_depth(nodes, children.drop_last(), below);
        let last = if children.last().node_id.0 < below {
            tree_depth(nodes, children.last().node_id.0)
        } else {
            0
        };
        if before < last {
            last
        } else {
            before
        }
    }
}

/// How many of some nodes are leaves.
pub open spec fn leaves_among(nodes: Map<u128, MetadataNode>, ids: Seq<MetadataNodeId>) -> nat
    decreases ids.len(),
{
    if ids.len() == 0 {
        0
    } else {
        leaves_among(nodes, ids.drop_last()) + if nodes[ids.last().0].kind is Leaf {
            1nat
        } else {
            0nat
        }
    }
}

/// Whether a node keeps to the configured limits.
pub open spec fn within_limits(config: LocalStoreConfig, node: MetadataNode) -> bool {
    match node.kind {
        MetadataNodeKind::Leaf { .. } => node.covered_range.blocks.0 <= config.metadata_leaf_blocks,
        MetadataNodeKind::Internal { children } => children@.len() <= config.metadata_fanout,
    }
}

/// Whether a tree keeps to the configured limits and has no node twice.
pub open spec fn tree_sound(
    nodes: Map<u128, MetadataNode>,
    config: LocalStoreConfig,
    id: u128,
) -> bool {
    &&& tree_ids(nodes, id).no_duplicates()
    &&& forall|i: int|
        0 <= i < tree_ids(nodes, id).len() ==> within_limits(
            config,
            nodes[(#[trigger] tree_ids(nodes, id)[i]).0],
        )
}

/// Every node of a well-formed tree is in the store.
proof fn lemma_ids_stored(nodes: Map<u128, MetadataNode>, id: u128, block_size: u64)
    requires
        tree_wf(nodes, block_size),
        nodes.contains_key(id),
    ensures
        forall|i: int|
            0 <= i < tree_ids(nodes, id).len() ==> nodes.contains_key(
                (#[trigger] tree_ids(nodes, id)[i]).0,
            ),
    decreases id, 1nat, 0nat,
{
    assert(node_wf(nodes, id, block_size));
    match nodes[id].kind {
        MetadataNodeKind::Leaf { .. } => {},
        MetadataNodeKind::Internal { children } => {
            lemma_child_ids_stored(nodes, children@, id, block_size);
            let below = child_ids(nodes, children@, id);
            assert forall|i: int| 0 <= i < tree_ids(nodes, id).len() implies nodes.contains_key(
                (#[trigger] tree_ids(nodes, id)[i]).0,
            ) by {
                if i > 0 {
                    assert(tree_ids(nodes, id)[i] == below[i - 1]);
                }
            }
        },
    }
}

proof fn lemma_child_ids_stored(
    nodes: Map<u128, MetadataNode>,
    children: Seq<MetadataChild>,
    below: u128,
    block_size: u64,
)
    requires
        tree_wf(nodes, block_size),
        forall|i: int|
            0 <= i < children.len() ==> nodes.contains_key((#[trigger] children[i]).node_id.0),
    ensures
        forall|i: int|
            0 <= i < child_ids(nodes, children, below).len() ==> nodes.contains_key(
                (#[trigger] child_ids(nodes, children, below)[i]).0,
            ),
    decreases below, 0nat, children.len(),
{
    if children.len() > 0 {
        let shorter = children.drop_last();
        assert forall|i: int| 0 <= i < shorter.len() implies nodes.contains_key(
            (#[trigger] shorter[i]).node_id.0,
        ) by {
            assert(shorter[i] == children[i]);
        }
        lemma_child_ids_stored(nodes, shorter, below, block_size);
        if children.last().node_id.0 < below {
            lemma_ids_stored(nodes, children.last().node_id.0, block_size);
            let first = child_ids(nodes, shorter, below);
            let last = tree_ids(nodes, children.last().node_id.0);
            let all = child_ids(nodes, children, below);
            assert forall|i: int| 0 <= i < all.len() implies nodes.contains_key(
                (#[trigger] all[i]).0,
            ) by {
                if i < first.len() {
                    assert(all[i] == first[i]);
                } else {
                    assert(all[i] == last[i - first.len()]);
                }
            }
        } else {
            assert(child_ids(nodes, children, below) =~= child_ids(nodes, shorter, below));
        }
    }
}

/// A tree is no deeper than it has nodes.
proof fn lemma_depth(nodes: Map<u128, MetadataNode>, id: u128)
    ensures
        tree_depth(nodes, id) <= tree_ids(nodes, id).len(),
    decreases id, 1nat, 0nat,
{
    match nodes[id].kind {
        MetadataNodeKind::Leaf { .. } => {},
        MetadataNodeKind::Internal { children } => lemma_child_depth(nodes, children@, id),
    }
}

proof fn lemma_child_depth(
    nodes: Map<u128, MetadataNode>,
    children: Seq<MetadataChild>,
    below: u128,
)
    ensures
        child_depth(nodes, children, below) <= child_ids(nodes, children, below).len(),
    decreases below, 0nat, children.len(),
{
    if children.len() > 0 {
        lemma_child_depth(nodes, children.drop_last(), below);
        if children.last().node_id.0 < below {
            lemma_depth(nodes, children.last().node_id.0);
        }
    }
}

/// What is below a child is no deeper and no larger than what is below its
/// parent.
proof fn lemma_child_within(
    nodes: Map<u128, MetadataNode>,
    children: Seq<MetadataChild>,
    below: u128,
    upto: int,
)
    requires
        0 <= upto < children.len(),
        children[upto].node_id.0 < below,
    ensures
        child_ids(nodes, children.take(upto + 1), below) == child_ids(
            nodes,
            children.take(upto),
            below,
        ) + tree_ids(nodes, children[upto].node_id.0),
        child_depth(nodes, children.take(upto + 1), below) == if child_depth(
            nodes,
            children.take(upto),
            below,
        ) < tree_depth(nodes, children[upto].node_id.0) {
            tree_depth(nodes, children[upto].node_id.0)
        } else {
            child_depth(nodes, children.take(upto), below)
        },
{
    assert(children.take(upto + 1).drop_last() =~= children.take(upto));
    assert(children.take(upto + 1).last() == children[upto]);
}

fn collect_tree_ids(
    nodes: &IdMap<MetadataNode>,
    id: MetadataNodeId,
    out: &mut Vec<MetadataNodeId>,
    block_size: Ghost<u64>,
) -> (depth: usize)
    requires
        tree_wf(nodes@, block_size@),
        nodes@.contains_key(id.0),
    ensures
        final(out)@ == old(out)@ + tree_ids(nodes@, id.0),
        depth == tree_depth(nodes@, id.0),
    decreases id.0,
{
    out.push(id);
    proof {
        assert(node_wf(nodes@, id.0, block_size@));
        lemma_depth(nodes@, id.0);
    }
    let mut below: usize = 0;
    if let Some(node) = nodes.get(id.0) {
        match &node.kind {
            MetadataNodeKind::Leaf { .. } => {},
            MetadataNodeKind::Internal { children } => {
                let mut next: usize = 0;
                assert(children@.take(0) =~= Seq::empty());
                assert(out@ =~= old(out)@.push(id) + child_ids(nodes@, children@.take(0), id.0));
                while next < children.len()
                    invariant
                        next <= children@.len(),
                        tree_wf(nodes@, block_size@),
                        children_wf(nodes@, children@, node.covered_range, id.0),
                        out@ == old(out)@.push(id) + child_ids(
                            nodes@,
                            children@.take(next as int),
                            id.0,
                        ),
                        below == child_depth(nodes@, children@.take(next as int), id.0),
                    decreases children@.len() - next,
                {
                    let ghost before = out@;
                    let child = children[next].node_id;
                    let depth = collect_tree_ids(nodes, child, out, block_size);
                    proof {
                        lemma_child_within(nodes@, children@, id.0, next as int);
                        assert(out@ =~= old(out)@.push(id) + child_ids(
                            nodes@,
                            children@.take(next + 1),
                            id.0,
                        ));
                    }
                    if below < depth {
                        below = depth;
                    }
                    next = next + 1;
                }
                assert(children@.take(next as int) =~= children@);
            },
        }
    }
    let total: usize = out.len();
    proof {
        assert(out@ =~= old(out)@ + tree_ids(nodes@, id.0));
        assert(tree_ids(nodes@, id.0).len() <= total);
    }
    below + 1
}

fn has_repeat(ids: &Vec<MetadataNodeId>) -> (repeat: bool)
    ensures
        repeat == !ids@.no_duplicates(),
{
    let mut seen: IdMap<()> = IdMap::new();
    let mut next: usize = 0;
    while next < ids.len()
        invariant
            next <= ids@.len(),
            forall|i: int, j: int| 0 <= i < j < next ==> ids@[i] != ids@[j],
            forall|id: u128| #[trigger]
                seen@.contains_key(id) <==> exists|i: int| 0 <= i < next && ids@[i].0 == id,
        decreases ids@.len() - next,
    {
        let ghost before = seen@;
        let id = ids[next];
        if seen.contains_key(id.0) {
            proof {
                let i = choose|i: int| 0 <= i < next && ids@[i].0 == id.0;
                assert(ids@[i] == ids@[next as int]);
            }
            return true;
        }
        seen.insert(id.0, ());
        proof {
            assert forall|i: int, j: int| 0 <= i < j < next + 1 implies ids@[i] != ids@[j] by {
                if j == next && ids@[i] == ids@[j] {
                    assert(before.contains_key(id.0));
                }
            }
            assert forall|id: u128| #[trigger]
                seen@.contains_key(id) <==> exists|i: int| 0 <= i < next + 1 && ids@[i].0 == id by {
                if seen@.contains_key(id) {
                    if id == ids@[next as int].0 {
                        assert(ids@[next as int].0 == id);
                    } else {
                        assert(before.contains_key(id));
                    }
                }
            }
        }
        next = next + 1;
    }
    false
}

impl LocalCoordinator {
    /// The nodes of a tree, each before those below it.
    pub fn metadata_tree_node_ids(&self, root_id: MetadataNodeId) -> (result: Result<
        Vec<MetadataNodeId>,
        StorageError,
    >)
        requires
            self.wf(),
        ensures
            result is Ok <==> self.nodes().contains_key(root_id.0),
            result matches Ok(ids) ==> ids@ == tree_ids(self.nodes(), root_id.0),
            result matches Err(error) ==> error == (StorageError::NotFound {
                kind: "metadata_node",
                id: root_id.0,
            }),
    {
        if !self.metadata.trees.nodes.contains_key(root_id.0) {
            return Err(StorageError::not_found("metadata_node", root_id.0));
        }
        let mut out: Vec<MetadataNodeId> = Vec::new();
        let _depth = collect_tree_ids(
            &self.metadata.trees.nodes,
            root_id,
            &mut out,
            Ghost(self.block_size()),
        );
        assert(out@ =~= tree_ids(self.nodes(), root_id.0));
        Ok(out)
    }

    /// Counts the nodes of a tree and holds each to the configured limits.
    pub fn validate_metadata_tree(&self, root_id: MetadataNodeId) -> (result: Result<
        MetadataTreeStats,
        StorageError,
    >)
        requires
            self.wf(),
        ensures
            result is Ok <==> self.nodes().contains_key(root_id.0) && tree_sound(
                self.nodes(),
                self.config,
                root_id.0,
            ),
            result matches Ok(stats) ==> {
                &&& stats.nodes == tree_ids(self.nodes(), root_id.0).len()
                &&& stats.leaves == leaves_among(
                    self.nodes(),
                    tree_ids(self.nodes(), root_id.0),
                )
                &&& stats.max_depth == tree_depth(self.nodes(), root_id.0)
            },
            result matches Err(error) ==> if self.nodes().contains_key(root_id.0) {
                error is Corrupt
            } else {
                error == (StorageError::NotFound { kind: "metadata_node", id: root_id.0 })
            },
    {
        if !self.metadata.trees.nodes.contains_key(root_id.0) {
            return Err(StorageError::not_found("metadata_node", root_id.0));
        }
        let mut ids: Vec<MetadataNodeId> = Vec::new();
        let max_depth = collect_tree_ids(
            &self.metadata.trees.nodes,
            root_id,
            &mut ids,
            Ghost(self.block_size()),
        );
        let ghost nodes = self.nodes();
        proof {
            assert(ids@ =~= tree_ids(nodes, root_id.0));
            lemma_ids_stored(nodes, root_id.0, self.block_size());
        }
        if has_repeat(&ids) {
            return Err(StorageError::corrupt("metadata tree contains a repeated node ID"));
        }
        let mut leaves: usize = 0;
        let mut next: usize = 0;
        assert(ids@.take(0) =~= Seq::empty());
        while next < ids.len()
            invariant
                next <= ids@.len(),
                leaves <= next,
                nodes == self.nodes(),
                ids@ == tree_ids(nodes, root_id.0),
                nodes.contains_key(root_id.0),
                leaves == leaves_among(nodes, ids@.take(next as int)),
                forall|i: int| 0 <= i < ids@.len() ==> nodes.contains_key((#[trigger] ids@[i]).0),
                forall|i: int|
                    0 <= i < next ==> within_limits(self.config, nodes[(#[trigger] ids@[i]).0]),
            decreases ids@.len() - next,
        {
            let id = ids[next];
            assert(nodes.contains_key(ids@[next as int].0));
            if let Some(node) = self.metadata.trees.nodes.get(id.0) {
                match &node.kind {
                    MetadataNodeKind::Leaf { .. } => {
                        if node.covered_range.blocks.0 > self.config.metadata_leaf_blocks {
                            assert(!within_limits(self.config, nodes[ids@[next as int].0]));
                            return Err(
                                StorageError::corrupt(
                                    "metadata leaf exceeds configured leaf block span",
                                ),
                            );
                        }
                        leaves = leaves + 1;
                    },
                    MetadataNodeKind::Internal { children } => {
                        if children.len() > self.config.metadata_fanout {
                            assert(!within_limits(self.config, nodes[ids@[next as int].0]));
                            return Err(
                                StorageError::corrupt(
                                    "metadata internal node exceeds configured fanout",
                                ),
                            );
                        }
                    },
                }
            }
            proof {
                assert(ids@.take(next + 1).drop_last() =~= ids@.take(next as int));
                assert(ids@.take(next + 1).last() == id);
            }
            next = next + 1;
        }
        assert(ids@.take(next as int) =~= ids@);
        Ok(MetadataTreeStats { nodes: ids.len(), leaves, max_depth })
    }
}

/// A half-open span as text.
pub open spec fn span_text(start: int, end: int) -> Seq<char> {
    " ["@ + decimal(start as nat) + ".."@ + decimal(end as nat) + ")"@
}

/// One line for a node.
pub open spec fn node_line(node: MetadataNode, depth: nat) -> Seq<char> {
    let head = spaces(2 * depth) + "node "@ + decimal(node.node_id.0 as nat);
    let span = span_text(node.covered_range.start.0 as int, node.covered_range.end());
    match node.kind {
        MetadataNodeKind::Internal { children } => head + " internal"@ + span + " children="@
            + decimal(children@.len()) + "\n"@,
        MetadataNodeKind::Leaf { entries, run_extents } => head + " leaf"@ + span + " entries="@
            + decimal(entries@.len()) + " run_extents="@ + decimal(run_extents@.len()) + "\n"@,
    }
}

/// One line for a mapped range.
pub open spec fn entry_line(entry: LeafEntry, depth: nat) -> Seq<char> {
    spaces(2 * depth) + " "@ + span_text(entry.logical_start.0 as int, entry.range().end())
        + " -> segment "@ + decimal(entry.segment_id.0 as nat) + "@"@ + decimal(
        entry.segment_offset.0 as nat,
    ) + "\n"@
}

/// One line for a range that an append run holds.
pub open spec fn run_line(extent: RunBackedFileExtent, depth: nat) -> Seq<char> {
    spaces(2 * depth) + " "@ + span_text(
        extent.file_offset_start as int,
        extent.file_offset_start + extent.payload_len,
    ) + " -> append-run "@ + decimal(extent.run.run_id.0 as nat) + "@"@ + decimal(
        extent.run.log_payload_offset as nat,
    ) + "\n"@
}

pub open spec fn entry_lines(entries: Seq<LeafEntry>, depth: nat) -> Seq<char>
    decreases entries.len(),
{
    if entries.len() == 0 {
        Seq::empty()
    } else {
        entry_lines(entries.drop_last(), depth) + entry_line(entries.last(), depth)
    }
}

pub open spec fn run_lines(extents: Seq<RunBackedFileExtent>, depth: nat) -> Seq<char>
    decreases extents.len(),
{
    if extents.len() == 0 {
        Seq::empty()
    } else {
        run_lines(extents.drop_last(), depth) + run_line(extents.last(), depth)
    }
}

/// A tree as text: a line for each node, then what is below it, two spaces
/// further in.
pub open spec fn tree_text(nodes: Map<u128, MetadataNode>, id: u128, depth: nat) -> Seq<char>
    decreases id, 1nat, 0nat,
{
    node_line(nodes[id], depth) + match nodes[id].kind {
        MetadataNodeKind::Leaf { entries, run_extents } => entry_lines(entries@, depth) + run_lines(
            run_extents@,
            depth,
        ),
        MetadataNodeKind::Internal { children } => child_text(nodes, children@, id, depth),
    }
}

pub open spec fn child_text(
    nodes: Map<u128, MetadataNode>,
    children: Seq<MetadataChild>,
    below: u128,
    depth: nat,
) -> Seq<char>
    decreases below, 0nat, children.len(),
{
    if children.len() == 0 {
        Seq::empty()
    } else {
        child_text(nodes, children.drop_last(), below, depth) + if children.last().node_id.0
            < below {
            tree_text(nodes, children.last().node_id.0, depth + 1)
        } else {
            Seq::empty()
        }
    }
}

fn push_span(out: &mut String, start: u64, end: u64)
    ensures
        final(out)@ == old(out)@ + span_text(start as int, end as int),
{
    out.append(" [");
    push_decimal(out, start as u128);
    out.append("..");
    push_decimal(out, end as u128);
    out.append(")");
    assert(out@ =~= old(out)@ + span_text(start as int, end as int));
}

fn push_entry_lines(out: &mut String, entries: &Vec<LeafEntry>, depth: usize)
    requires
        2 * depth <= usize::MAX,
        forall|i: int| 0 <= i < entries@.len() ==> (#[trigger] entries@[i]).wf(),
    ensures
        final(out)@ == old(out)@ + entry_lines(entries@, depth as nat),
{
    let mut next: usize = 0;
    proof {
        assert(entries@.take(0) =~= Seq::empty());
        assert(out@ =~= old(out)@ + entry_lines(entries@.take(0), depth as nat));
    }
    while next < entries.len()
        invariant
            next <= entries@.len(),
            2 * depth <= usize::MAX,
            forall|i: int| 0 <= i < entries@.len() ==> (#[trigger] entries@[i]).wf(),
            out@ == old(out)@ + entry_lines(entries@.take(next as int), depth as nat),
        decreases entries@.len() - next,
    {
        let ghost before = out@;
        let entry = &entries[next];
        assert(entries@[next as int].wf());
        push_spaces(out, 2 * depth);
        out.append(" ");
        push_span(out, entry.logical_start.0, entry.logical_start.0 + entry.blocks.0);
        out.append(" -> segment ");
        push_decimal(out, entry.segment_id.0);
        out.append("@");
        push_decimal(out, entry.segment_offset.0 as u128);
        out.append("\n");
        proof {
            assert(out@ =~= before + entry_line(*entry, depth as nat));
            let more = entries@.take(next + 1);
            assert(more.drop_last() =~= entries@.take(next as int));
            assert(out@ =~= old(out)@ + entry_lines(more, depth as nat));
        }
        next = next + 1;
    }
    assert(entries@.take(next as int) =~= entries@);
}

fn push_run_lines(out: &mut String, extents: &Vec<RunBackedFileExtent>, depth: usize)
    requires
        2 * depth <= usize::MAX,
        forall|i: int|
            0 <= i < extents@.len() ==> (#[trigger] extents@[i]).file_offset_start
                + extents@[i].payload_len <= u64::MAX,
    ensures
        final(out)@ == old(out)@ + run_lines(extents@, depth as nat),
{
    let mut next: usize = 0;
    proof {
        assert(extents@.take(0) =~= Seq::empty());
        assert(out@ =~= old(out)@ + run_lines(extents@.take(0), depth as nat));
    }
    while next < extents.len()
        invariant
            next <= extents@.len(),
            2 * depth <= usize::MAX,
            forall|i: int|
                0 <= i < extents@.len() ==> (#[trigger] extents@[i]).file_offset_start
                    + extents@[i].payload_len <= u64::MAX,
            out@ == old(out)@ + run_lines(extents@.take(next as int), depth as nat),
        decreases extents@.len() - next,
    {
        let ghost before = out@;
        let extent = &extents[next];
        assert(extents@[next as int].file_offset_start + extents@[next as int].payload_len
            <= u64::MAX);
        push_spaces(out, 2 * depth);
        out.append(" ");
        push_span(out, extent.file_offset_start, extent.file_offset_start + extent.payload_len);
        out.append(" -> append-run ");
        push_decimal(out, extent.run.run_id.0);
        out.append("@");
        push_decimal(out, extent.run.log_payload_offset as u128);
        out.append("\n");
        proof {
            assert(out@ =~= before + run_line(*extent, depth as nat));
            let more = extents@.take(next + 1);
            assert(more.drop_last() =~= extents@.take(next as int));
            assert(out@ =~= old(out)@ + run_lines(more, depth as nat));
        }
        next = next + 1;
    }
    assert(extents@.take(next as int) =~= extents@);
}

#[verifier::rlimit(60)]
#[verifier::spinoff_prover]
fn push_node_line(out: &mut String, node: &MetadataNode, depth: usize)
    requires
        2 * depth <= usize::MAX,
        node.covered_range.end() <= u64::MAX,
    ensures
        final(out)@ == old(out)@ + node_line(*node, depth as nat),
{
    push_spaces(out, 2 * depth);
    out.append("node ");
    push_decimal(out, node.node_id.0);
    let start = node.covered_range.start.0;
    let end = node.covered_range.start.0 + node.covered_range.blocks.0;
    match &node.kind {
        MetadataNodeKind::Internal { children } => {
            out.append(" internal");
            push_span(out, start, end);
            out.append(" children=");
            push_decimal(out, children.len() as u128);
        },
        MetadataNodeKind::Leaf { entries, run_extents } => {
            out.append(" leaf");
            push_span(out, start, end);
            out.append(" entries=");
            push_decimal(out, entries.len() as u128);
            out.append(" run_extents=");
            push_decimal(out, run_extents.len() as u128);
        },
    }
    out.append("\n");
    assert(out@ =~= old(out)@ + node_line(*node, depth as nat));
}

/// The text of one more child.
proof fn lemma_child_text(
    nodes: Map<u128, MetadataNode>,
    children: Seq<MetadataChild>,
    below: u128,
    depth: nat,
    upto: int,
)
    requires
        0 <= upto < children.len(),
        children[upto].node_id.0 < below,
    ensures
        child_text(nodes, children.take(upto + 1), below, depth) == child_text(
            nodes,
            children.take(upto),
            below,
            depth,
        ) + tree_text(nodes, children[upto].node_id.0, depth + 1),
{
    assert(children.take(upto + 1).drop_last() =~= children.take(upto));
    assert(children.take(upto + 1).last() == children[upto]);
}

fn render_tree_at(
    nodes: &IdMap<MetadataNode>,
    id: MetadataNodeId,
    depth: usize,
    room: usize,
    out: &mut String,
    block_size: Ghost<u64>,
)
    requires
        tree_wf(nodes@, block_size@),
        nodes@.contains_key(id.0),
        tree_depth(nodes@, id.0) <= room,
        2 * (depth + room) <= usize::MAX,
    ensures
        final(out)@ == old(out)@ + tree_text(nodes@, id.0, depth as nat),
    decreases id.0,
{
    proof {
        assert(node_wf(nodes@, id.0, block_size@));
        assert(nodes@[id.0].covered_range.end() <= u64::MAX) by (nonlinear_arith)
            requires
                nodes@[id.0].covered_range.end() * block_size@ <= u64::MAX,
                block_size@ > 0,
                nodes@[id.0].covered_range.end() >= 0,
        ;
    }
    if let Some(node) = nodes.get(id.0) {
        push_node_line(out, node, depth);
        let ghost named = out@;
        match &node.kind {
            MetadataNodeKind::Leaf { entries, run_extents } => {
                push_entry_lines(out, entries, depth);
                push_run_lines(out, run_extents, depth);
                assert(out@ =~= old(out)@ + tree_text(nodes@, id.0, depth as nat));
            },
            MetadataNodeKind::Internal { children } => {
                let mut next: usize = 0;
                proof {
                    assert(children@.take(0) =~= Seq::empty());
                    assert(out@ =~= named + child_text(nodes@, children@.take(0), id.0, depth as nat));
                }
                while next < children.len()
                    invariant
                        next <= children@.len(),
                        tree_wf(nodes@, block_size@),
                        children_wf(nodes@, children@, node.covered_range, id.0),
                        1 + child_depth(nodes@, children@, id.0) <= room,
                        2 * (depth + room) <= usize::MAX,
                        out@ == named + child_text(
                            nodes@,
                            children@.take(next as int),
                            id.0,
                            depth as nat,
                        ),
                    decreases children@.len() - next,
                {
                    let child = children[next].node_id;
                    proof {
                        lemma_deepest(nodes@, children@, id.0, next as int);
                        lemma_child_text(nodes@, children@, id.0, depth as nat, next as int);
                    }
                    render_tree_at(nodes, child, depth + 1, room - 1, out, block_size);
                    assert(out@ =~= named + child_text(
                        nodes@,
                        children@.take(next + 1),
                        id.0,
                        depth as nat,
                    ));
                    next = next + 1;
                }
                proof {
                    assert(children@.take(next as int) =~= children@);
                    assert(out@ =~= old(out)@ + tree_text(nodes@, id.0, depth as nat));
                }
            },
        }
    }
}

/// No child is deeper than the deepest.
pub proof fn lemma_deepest(
    nodes: Map<u128, MetadataNode>,
    children: Seq<MetadataChild>,
    below: u128,
    i: int,
)
    requires
        0 <= i < children.len(),
        children[i].node_id.0 < below,
    ensures
        tree_depth(nodes, children[i].node_id.0) <= child_depth(nodes, children, below),
    decreases children.len(),
{
    if i < children.len() - 1 {
        let shorter = children.drop_last();
        assert(shorter[i] == children[i]);
        lemma_deepest(nodes, shorter, below, i);
    }
}

impl LocalCoordinator {
    /// A tree as text. Only a tree so deep that its indentation could not be
    /// written is refused.
    pub fn render_metadata_tree(&self, root_id: MetadataNodeId) -> (result: Result<
        String,
        StorageError,
    >)
        requires
            self.wf(),
        ensures
            result is Ok <==> self.nodes().contains_key(root_id.0) && 2 * tree_depth(
                self.nodes(),
                root_id.0,
            ) <= usize::MAX,
            result matches Ok(text) ==> text@ == tree_text(self.nodes(), root_id.0, 0),
            result matches Err(error) ==> if self.nodes().contains_key(root_id.0) {
                error is Unsupported
            } else {
                error == (StorageError::NotFound { kind: "metadata_node", id: root_id.0 })
            },
    {
        if !self.metadata.trees.nodes.contains_key(root_id.0) {
            return Err(StorageError::not_found("metadata_node", root_id.0));
        }
        let mut ids: Vec<MetadataNodeId> = Vec::new();
        let depth = collect_tree_ids(
            &self.metadata.trees.nodes,
            root_id,
            &mut ids,
            Ghost(self.block_size()),
        );
        if depth > usize::MAX / 2 {
            return Err(StorageError::unsupported("metadata tree is too deep"));
        }
        let mut out = String::new();
        render_tree_at(
            &self.metadata.trees.nodes,
            root_id,
            0,
            depth,
            &mut out,
            Ghost(self.block_size()),
        );
        assert(out@ =~= tree_text(self.nodes(), root_id.0, 0));
        Ok(out)
    }
}

} // verus!
