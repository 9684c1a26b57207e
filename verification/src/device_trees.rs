//! The trees of a device, one for each shard.
use vstd::prelude::*;

use crate::block_api::BlockRange;
use crate::error::StorageError;
use crate::id::MetadataNodeId;
use crate::idmap::IdMap;
use crate::leaf::SegmentBlock;
use crate::metadata_records::MetadataNode;
use crate::read_plan::keeps_runs_backed;
use crate::storage_nodes::SegmentRecord;
use crate::reach::{lemma_kept_below, reaches};
use crate::tree::{
    block_at, edits_backed, is_edited, keeps_nodes, law_trees_are_immutable, tree_backed, tree_wf,
    TreeRangeEdit, TreeStore,
};
use crate::tree_edit::{edit_outcome, edits_allowed, replace_tree_ranges};

verus! {

/// Whether some shard covers a block.
pub open spec fn has_shard_at(
    nodes: Map<u128, MetadataNode>,
    roots: Seq<MetadataNodeId>,
    block: int,
) -> bool {
    exists|s: int| 0 <= s < roots.len() && #[trigger] shard_covers(nodes, roots, s, block)
}

pub open spec fn shard_covers(
    nodes: Map<u128, MetadataNode>,
    roots: Seq<MetadataNodeId>,
    s: int,
    block: int,
) -> bool {
    nodes[roots[s].0].covered_range.contains(block)
}

/// The shard that covers a block.
pub open spec fn shard_at(
    nodes: Map<u128, MetadataNode>,
    roots: Seq<MetadataNodeId>,
    block: int,
) -> int {
    choose|s: int| 0 <= s < roots.len() && #[trigger] shard_covers(nodes, roots, s, block)
}

/// Whether the shards' trees are there, apart from each other, and together
/// cover the device's blocks.
pub open spec fn shards_wf(
    nodes: Map<u128, MetadataNode>,
    roots: Seq<MetadataNodeId>,
    blocks: int,
) -> bool {
    &&& forall|s: int|
        0 <= s < roots.len() ==> nodes.contains_key((#[trigger] roots[s]).0)
            && nodes[roots[s].0].covered_range.end() <= blocks
            && nodes[roots[s].0].covered_range.blocks.0 > 0
    &&& forall|s: int, t: int|
        0 <= s < t < roots.len() ==> nodes[(#[trigger] roots[s]).0].covered_range.end()
            <= nodes[(#[trigger] roots[t]).0].covered_range.start.0
    &&& forall|block: int| 0 <= block < blocks ==> #[trigger] has_shard_at(nodes, roots, block)
}

/// The segment block that a device has for a logical block.
pub open spec fn device_block_at(
    nodes: Map<u128, MetadataNode>,
    roots: Seq<MetadataNodeId>,
    block: int,
) -> Option<SegmentBlock> {
    if has_shard_at(nodes, roots, block) {
        block_at(nodes, roots[shard_at(nodes, roots, block)].0, block)
    } else {
        None
    }
}

pub proof fn lemma_shard_unique(
    nodes: Map<u128, MetadataNode>,
    roots: Seq<MetadataNodeId>,
    blocks: int,
    s: int,
    block: int,
)
    requires
        shards_wf(nodes, roots, blocks),
        0 <= s < roots.len(),
        nodes[roots[s].0].covered_range.contains(block),
    ensures
        has_shard_at(nodes, roots, block),
        shard_at(nodes, roots, block) == s,
        device_block_at(nodes, roots, block) == block_at(nodes, roots[s].0, block),
{
    assert(shard_covers(nodes, roots, s, block));
    let t = shard_at(nodes, roots, block);
    assert(shard_covers(nodes, roots, t, block));
    if s < t {
        assert(nodes[roots[s].0].covered_range.end() <= nodes[roots[t].0].covered_range.start.0);
    } else if t < s {
        assert(nodes[roots[t].0].covered_range.end() <= nodes[roots[s].0].covered_range.start.0);
    }
}

/// New nodes change nothing of a device.
pub proof fn lemma_device_frame(
    before: Map<u128, MetadataNode>,
    after: Map<u128, MetadataNode>,
    block_size: u64,
    roots: Seq<MetadataNodeId>,
    blocks: int,
)
    requires
        tree_wf(before, block_size),
        keeps_nodes(before, after),
        shards_wf(before, roots, blocks),
    ensures
        shards_wf(after, roots, blocks),
        forall|block: int|
            0 <= block < blocks ==> #[trigger] device_block_at(after, roots, block)
                == device_block_at(before, roots, block),
{
    assert forall|s: int| 0 <= s < roots.len() implies after.contains_key((#[trigger] roots[s]).0)
        && after[roots[s].0] == before[roots[s].0] by {
        assert(before.contains_key(roots[s].0));
    }
    assert forall|block: int| 0 <= block < blocks implies #[trigger] has_shard_at(
        after,
        roots,
        block,
    ) by {
        assert(has_shard_at(before, roots, block));
        let s = shard_at(before, roots, block);
        assert(shard_covers(before, roots, s, block));
        assert(after[roots[s].0] == before[roots[s].0]);
        assert(shard_covers(after, roots, s, block));
    }
    assert forall|block: int| 0 <= block < blocks implies #[trigger] device_block_at(
        after,
        roots,
        block,
    ) == device_block_at(before, roots, block) by {
        assert(has_shard_at(before, roots, block));
        let s = shard_at(before, roots, block);
        assert(shard_covers(before, roots, s, block));
        assert(after[roots[s].0] == before[roots[s].0]);
        lemma_shard_unique(before, roots, blocks, s, block);
        lemma_shard_unique(after, roots, blocks, s, block);
        law_trees_are_immutable(before, after, block_size, roots[s].0);
    }
}

/// Whether a store keeps all that some roots lead to.
pub open spec fn keeps_below(
    before: Map<u128, MetadataNode>,
    after: Map<u128, MetadataNode>,
    roots: Seq<MetadataNodeId>,
) -> bool {
    forall|s: int, n: u128|
        #![trigger roots[s], reaches(before, roots[s].0, n)]
        0 <= s < roots.len() && reaches(before, roots[s].0, n) ==> after.contains_key(n)
            && after[n] == before[n]
}

/// A store that keeps all that the roots of a device lead to keeps the
/// device.
pub proof fn lemma_device_kept_below(
    before: Map<u128, MetadataNode>,
    after: Map<u128, MetadataNode>,
    block_size: u64,
    roots: Seq<MetadataNodeId>,
    blocks: int,
)
    requires
        tree_wf(before, block_size),
        keeps_below(before, after, roots),
        shards_wf(before, roots, blocks),
    ensures
        shards_wf(after, roots, blocks),
        forall|block: int|
            0 <= block < blocks ==> #[trigger] device_block_at(after, roots, block)
                == device_block_at(before, roots, block),
{
    assert forall|s: int| 0 <= s < roots.len() implies after.contains_key((#[trigger] roots[s]).0)
        && after[roots[s].0] == before[roots[s].0] by {
        assert(before.contains_key(roots[s].0));
        assert(reaches(before, roots[s].0, roots[s].0));
    }
    assert forall|block: int| 0 <= block < blocks implies #[trigger] has_shard_at(
        after,
        roots,
        block,
    ) by {
        assert(has_shard_at(before, roots, block));
        let s = shard_at(before, roots, block);
        assert(shard_covers(before, roots, s, block));
        assert(after[roots[s].0] == before[roots[s].0]);
        assert(shard_covers(after, roots, s, block));
    }
    assert forall|block: int| 0 <= block < blocks implies #[trigger] device_block_at(
        after,
        roots,
        block,
    ) == device_block_at(before, roots, block) by {
        assert(has_shard_at(before, roots, block));
        let s = shard_at(before, roots, block);
        assert(shard_covers(before, roots, s, block));
        assert(after[roots[s].0] == before[roots[s].0]);
        lemma_shard_unique(before, roots, blocks, s, block);
        lemma_shard_unique(after, roots, blocks, s, block);
        assert forall|n: u128| #[trigger] reaches(before, roots[s].0, n) implies
            after.contains_key(n) && after[n] == before[n] by {}
        lemma_kept_below(before, after, roots[s].0, block_size);
    }
}

/// Whether no edit is empty and no two of them overlap.
pub open spec fn edits_apart(edits: Seq<TreeRangeEdit>) -> bool {
    &&& forall|i: int|
        0 <= i < edits.len() ==> (#[trigger] edits[i]).range.blocks.0 > 0 && edits[i].range.end()
            <= u64::MAX
    &&& forall|i: int, j: int|
        0 <= i < j < edits.len() ==> (#[trigger] edits[i]).range.end() <= (
        #[trigger] edits[j]).range.start.0 || edits[j].range.end() <= edits[i].range.start.0
}

/// Whether every edit lies inside one shard.
pub open spec fn edits_in_shards(
    nodes: Map<u128, MetadataNode>,
    roots: Seq<MetadataNodeId>,
    edits: Seq<TreeRangeEdit>,
) -> bool {
    forall|i: int|
        0 <= i < edits.len() ==> exists|s: int|
            0 <= s < roots.len() && nodes[(#[trigger] roots[s]).0].covered_range.start.0 <= (
            #[trigger] edits[i]).range.start.0 && edits[i].range.end()
                <= nodes[roots[s].0].covered_range.end()
}

pub open spec fn bases_wf(edits: Seq<TreeRangeEdit>) -> bool {
    forall|i: int|
        0 <= i < edits.len() ==> ((#[trigger] edits[i]).replacement matches Some(replacement)
            ==> replacement.segment_base.0 <= edits[i].range.start.0)
}

/// The edits that start inside a range.
fn edits_in_range(edits: &Vec<TreeRangeEdit>, range: BlockRange) -> (inside: Vec<TreeRangeEdit>)
    requires
        edits_apart(edits@),
        bases_wf(edits@),
        range.end() <= u64::MAX,
    ensures
        edits_apart(inside@),
        bases_wf(inside@),
        forall|i: int| 0 <= i < inside@.len() ==> edits@.contains(#[trigger] inside@[i]),
        forall|i: int| 0 <= i < inside@.len() ==> range.contains((#[trigger] inside@[i]).range.start.0 as int),
        forall|i: int|
            0 <= i < edits@.len() && range.contains((#[trigger] edits@[i]).range.start.0 as int)
                ==> inside@.contains(edits@[i]),
{
    let end: u64 = range.start.0 + range.blocks.0;
    let mut inside: Vec<TreeRangeEdit> = Vec::new();
    let mut i: usize = 0;
    while i < edits.len()
        invariant
            i <= edits@.len(),
            end == range.end(),
            edits_apart(edits@),
            bases_wf(edits@),
            edits_apart(inside@),
            bases_wf(inside@),
            forall|k: int|
                0 <= k < inside@.len() ==> exists|m: int|
                    0 <= m < i && #[trigger] edits@[m] == #[trigger] inside@[k],
            forall|k: int| 0 <= k < inside@.len() ==> range.contains((#[trigger] inside@[k]).range.start.0 as int),
            forall|k: int|
                0 <= k < i && range.contains((#[trigger] edits@[k]).range.start.0 as int)
                    ==> inside@.contains(edits@[k]),
        decreases edits@.len() - i,
    {
        let edit = edits[i];
        let ghost before = inside@;
        if range.start.0 <= edit.range.start.0 && edit.range.start.0 < end {
            inside.push(edit);
            proof {
                assert(inside@[before.len() as int] == edit);
                assert forall|k: int| 0 <= k < inside@.len() implies exists|m: int|
                    0 <= m < i + 1 && #[trigger] edits@[m] == #[trigger] inside@[k] by {
                    if k < before.len() {
                        let m = choose|m: int|
                            0 <= m < i && #[trigger] edits@[m] == before[k];
                        assert(edits@[m] == inside@[k]);
                    } else {
                        assert(edits@[i as int] == inside@[k]);
                    }
                }
                assert forall|k: int, j: int| 0 <= k < j < inside@.len() implies (
                #[trigger] inside@[k]).range.end() <= (#[trigger] inside@[j]).range.start.0
                    || inside@[j].range.end() <= inside@[k].range.start.0 by {
                    if j == before.len() {
                        let m = choose|m: int|
                            0 <= m < i && #[trigger] edits@[m] == before[k];
                        assert(edits@[m].range.end() <= edits@[i as int].range.start.0
                            || edits@[i as int].range.end() <= edits@[m].range.start.0);
                    } else {
                        assert(inside@[k] == before[k] && inside@[j] == before[j]);
                    }
                }
                assert forall|k: int| 0 <= k < i + 1 && range.contains(
                    (#[trigger] edits@[k]).range.start.0 as int,
                ) implies inside@.contains(edits@[k]) by {
                    if k < i {
                        assert(before.contains(edits@[k]));
                        let m = choose|m: int| 0 <= m < before.len() && before[m] == edits@[k];
                        assert(inside@[m] == edits@[k]);
                    } else {
                        assert(inside@[before.len() as int] == edits@[k]);
                    }
                }
            }
        }
        i = i + 1;
    }
    proof {
        assert forall|k: int| 0 <= k < inside@.len() implies edits@.contains(
            #[trigger] inside@[k],
        ) by {
            let m = choose|m: int| 0 <= m < edits@.len() && #[trigger] edits@[m] == inside@[k];
            assert(edits@[m] == inside@[k]);
        }
    }
    inside
}

/// Puts ranges in place of what a device holds there, shard by shard.
#[verifier::rlimit(60)]
pub fn replace_device_ranges(
    trees: &mut TreeStore,
    segments: &IdMap<SegmentRecord>,
    block_size: u64,
    roots: &Vec<MetadataNodeId>,
    edits: &Vec<TreeRangeEdit>,
    blocks: Ghost<int>,
) -> (result: Result<Vec<MetadataNodeId>, StorageError>)
    requires
        old(trees).wf(block_size),
        shards_wf(old(trees).nodes@, roots@, blocks@),
        edits_apart(edits@),
        bases_wf(edits@),
        edits_in_shards(old(trees).nodes@, roots@, edits@),
    ensures
        final(trees).wf(block_size),
        keeps_nodes(old(trees).nodes@, final(trees).nodes@),
        old(trees).next_metadata_node_id <= final(trees).next_metadata_node_id,
        final(trees).spare() == old(trees).spare(),
        tree_backed(old(trees).nodes@, segments@) ==> tree_backed(
            final(trees).nodes@,
            segments@,
        ),
        keeps_runs_backed(old(trees).nodes@, final(trees).nodes@, Seq::empty()),
        result matches Ok(new_roots) ==> new_roots@.len() == roots@.len() && shards_wf(
            final(trees).nodes@,
            new_roots@,
            blocks@,
        ) && forall|s: int|
            0 <= s < roots@.len() ==> final(trees).nodes@[(
            #[trigger] new_roots@[s]).0].covered_range == old(
                trees,
            ).nodes@[roots@[s].0].covered_range,
        result matches Ok(new_roots) ==> forall|block: int|
            0 <= block < blocks@ ==> edit_outcome(
                edits@,
                block,
                device_block_at(old(trees).nodes@, roots@, block),
                #[trigger] device_block_at(final(trees).nodes@, new_roots@, block),
            ),
        result matches Ok(new_roots) ==> new_roots@ == roots@ ==> *final(trees) == *old(trees),
        result is Err ==> !edits_backed(edits@, segments@) || !tree_backed(
            old(trees).nodes@,
            segments@,
        ) || final(trees).next_metadata_node_id == u128::MAX,
{
    let ghost before = trees.nodes@;
    let ghost start = *trees;
    let mut new_roots: Vec<MetadataNodeId> = Vec::new();
    let mut s: usize = 0;
    while s < roots.len()
        invariant
            s <= roots@.len(),
            start == *old(trees),
            before == start.nodes@,
            tree_wf(before, block_size),
            shards_wf(before, roots@, blocks@),
            edits_apart(edits@),
            bases_wf(edits@),
            edits_in_shards(before, roots@, edits@),
            trees.wf(block_size),
            keeps_nodes(before, trees.nodes@),
            start.next_metadata_node_id <= trees.next_metadata_node_id,
            trees.spare() == start.spare(),
            tree_backed(before, segments@) ==> tree_backed(trees.nodes@, segments@),
            keeps_runs_backed(before, trees.nodes@, Seq::empty()),
            new_roots@.len() == s,
            forall|t: int|
                0 <= t < s ==> #[trigger] shard_edited(
                    before,
                    trees.nodes@,
                    roots@[t],
                    new_roots@[t],
                    edits@,
                ),
            new_roots@ == roots@.take(s as int) ==> *trees == start,
        decreases roots@.len() - s,
    {
        let root = roots[s];
        let ghost nodes_before = trees.nodes@;
        let ghost roots_before = new_roots@;
        let ghost store_before = *trees;
        assert(before.contains_key(root.0));
        assert(nodes_before.contains_key(root.0));
        assert(crate::tree::node_wf(before, root.0, block_size));
        let covered = match trees.nodes.get(root.raw()) {
            Some(node) => node.covered_range,
            None => return Err(StorageError::not_found("metadata_node", root.raw())),
        };
        proof {
            assert(covered.end() <= u64::MAX) by (nonlinear_arith)
                requires
                    covered.end() * block_size <= u64::MAX,
                    block_size >= 1,
                    covered.end() >= 0,
            ;
        }
        let shard_edits = edits_in_range(edits, covered);
        proof {
            lemma_shard_edits_allowed(
                before,
                roots@,
                blocks@,
                s as int,
                edits@,
                shard_edits@,
            );
            if edits_backed(edits@, segments@) {
                assert forall|i: int| 0 <= i < shard_edits@.len() implies (
                #[trigger] shard_edits@[i]).backed(segments@) by {
                    assert(edits@.contains(shard_edits@[i]));
                    let k = choose|k: int| 0 <= k < edits@.len() && edits@[k] == shard_edits@[i];
                    assert(edits@[k].backed(segments@));
                }
            }
        }
        let edit = match replace_tree_ranges(trees, segments, block_size, root, &shard_edits) {
            Ok(edit) => edit,
            Err(error) => {
                return Err(error);
            },
        };
        new_roots.push(edit.root);
        proof {
            law_trees_are_immutable(before, nodes_before, block_size, root.0);
            assert forall|block: int| covered.contains(block) implies edit_outcome(
                edits@,
                block,
                block_at(before, root.0, block),
                #[trigger] block_at(trees.nodes@, edit.root.0, block),
            ) by {
                assert(edit_outcome(
                    shard_edits@,
                    block,
                    block_at(nodes_before, root.0, block),
                    block_at(trees.nodes@, edit.root.0, block),
                ));
                lemma_shard_outcome(
                    before,
                    roots@,
                    blocks@,
                    s as int,
                    edits@,
                    shard_edits@,
                    block,
                    block_at(before, root.0, block),
                    block_at(trees.nodes@, edit.root.0, block),
                );
            }
            assert(shard_edited(before, trees.nodes@, root, edit.root, edits@));
            assert forall|t: int| 0 <= t < s implies #[trigger] shard_edited(
                before,
                trees.nodes@,
                roots@[t],
                new_roots@[t],
                edits@,
            ) by {
                assert(new_roots@[t] == roots_before[t]);
                assert(shard_edited(before, nodes_before, roots@[t], roots_before[t], edits@));
                law_trees_are_immutable(
                    nodes_before,
                    trees.nodes@,
                    block_size,
                    roots_before[t].0,
                );
            }
            let longer = roots@.take(s + 1);
            if new_roots@ == longer {
                assert(new_roots@.take(s as int) =~= roots_before);
                assert(longer.take(s as int) =~= roots@.take(s as int));
                assert(new_roots@[s as int] == longer[s as int]);
            }
        }
        s = s + 1;
    }
    proof {
        assert(roots@.take(roots@.len() as int) =~= roots@);
        let after = trees.nodes@;
        assert forall|t: int| 0 <= t < roots@.len() implies after.contains_key(
            (#[trigger] new_roots@[t]).0,
        ) && after[new_roots@[t].0].covered_range == before[roots@[t].0].covered_range by {
            assert(shard_edited(before, after, roots@[t], new_roots@[t], edits@));
        }
        lemma_edited_shards_wf(before, after, roots@, new_roots@, blocks@);
        assert forall|block: int| 0 <= block < blocks@ implies edit_outcome(
            edits@,
            block,
            device_block_at(before, roots@, block),
            #[trigger] device_block_at(after, new_roots@, block),
        ) by {
            assert(has_shard_at(before, roots@, block));
            let t = shard_at(before, roots@, block);
            assert(shard_covers(before, roots@, t, block));
            lemma_shard_unique(before, roots@, blocks@, t, block);
            assert(shard_edited(before, after, roots@[t], new_roots@[t], edits@));
            assert(after[new_roots@[t].0].covered_range == before[roots@[t].0].covered_range);
            lemma_shard_unique(after, new_roots@, blocks@, t, block);
            assert(edit_outcome(
                edits@,
                block,
                block_at(before, roots@[t].0, block),
                block_at(after, new_roots@[t].0, block),
            ));
        }
    }
    Ok(new_roots)
}

/// Whether a shard's new tree holds what the edits make of the old one.
spec fn shard_edited(
    before: Map<u128, MetadataNode>,
    after: Map<u128, MetadataNode>,
    old_root: MetadataNodeId,
    new_root: MetadataNodeId,
    edits: Seq<TreeRangeEdit>,
) -> bool {
    &&& after.contains_key(new_root.0)
    &&& after[new_root.0].covered_range == before[old_root.0].covered_range
    &&& forall|block: int|
        before[old_root.0].covered_range.contains(block) ==> edit_outcome(
            edits,
            block,
            block_at(before, old_root.0, block),
            #[trigger] block_at(after, new_root.0, block),
        )
}

pub proof fn lemma_edited_shards_wf(
    before: Map<u128, MetadataNode>,
    after: Map<u128, MetadataNode>,
    roots: Seq<MetadataNodeId>,
    new_roots: Seq<MetadataNodeId>,
    blocks: int,
)
    requires
        shards_wf(before, roots, blocks),
        new_roots.len() == roots.len(),
        forall|t: int|
            0 <= t < roots.len() ==> after.contains_key((#[trigger] new_roots[t]).0)
                && after[new_roots[t].0].covered_range == before[roots[t].0].covered_range,
    ensures
        shards_wf(after, new_roots, blocks),
{
    assert forall|s: int| 0 <= s < new_roots.len() implies after.contains_key(
        (#[trigger] new_roots[s]).0,
    ) && after[new_roots[s].0].covered_range.end() <= blocks
        && after[new_roots[s].0].covered_range.blocks.0 > 0 by {
        assert(before.contains_key(roots[s].0));
    }
    assert forall|s: int, t: int| 0 <= s < t < new_roots.len() implies after[(
    #[trigger] new_roots[s]).0].covered_range.end() <= after[(
    #[trigger] new_roots[t]).0].covered_range.start.0 by {
        assert(before[roots[s].0].covered_range.end() <= before[roots[t].0].covered_range.start.0);
    }
    assert forall|block: int| 0 <= block < blocks implies #[trigger] has_shard_at(
        after,
        new_roots,
        block,
    ) by {
        assert(has_shard_at(before, roots, block));
        let s = shard_at(before, roots, block);
        assert(shard_covers(before, roots, s, block));
        assert(after[new_roots[s].0].covered_range == before[roots[s].0].covered_range);
        assert(shard_covers(after, new_roots, s, block));
    }
}

/// An edit that starts inside a shard lies inside it.
proof fn lemma_edit_in_shard(
    nodes: Map<u128, MetadataNode>,
    roots: Seq<MetadataNodeId>,
    blocks: int,
    s: int,
    edits: Seq<TreeRangeEdit>,
    i: int,
    block: int,
)
    requires
        shards_wf(nodes, roots, blocks),
        edits_apart(edits),
        edits_in_shards(nodes, roots, edits),
        0 <= s < roots.len(),
        0 <= i < edits.len(),
        edits[i].range.contains(block),
        nodes[roots[s].0].covered_range.contains(block),
    ensures
        nodes[roots[s].0].covered_range.start.0 <= edits[i].range.start.0,
        edits[i].range.end() <= nodes[roots[s].0].covered_range.end(),
        nodes[roots[s].0].covered_range.contains(edits[i].range.start.0 as int),
{
    let t = choose|t: int|
        0 <= t < roots.len() && nodes[(#[trigger] roots[t]).0].covered_range.start.0 <= (
        #[trigger] edits[i]).range.start.0 && edits[i].range.end()
            <= nodes[roots[t].0].covered_range.end();
    assert(nodes[roots[t].0].covered_range.contains(block));
    lemma_shard_unique(nodes, roots, blocks, s, block);
    lemma_shard_unique(nodes, roots, blocks, t, block);
}

proof fn lemma_shard_edits_allowed(
    nodes: Map<u128, MetadataNode>,
    roots: Seq<MetadataNodeId>,
    blocks: int,
    s: int,
    edits: Seq<TreeRangeEdit>,
    inside: Seq<TreeRangeEdit>,
)
    requires
        shards_wf(nodes, roots, blocks),
        edits_apart(edits),
        edits_in_shards(nodes, roots, edits),
        edits_apart(inside),
        0 <= s < roots.len(),
        forall|i: int| 0 <= i < inside.len() ==> edits.contains(#[trigger] inside[i]),
        forall|i: int|
            0 <= i < inside.len() ==> nodes[roots[s].0].covered_range.contains(
                (#[trigger] inside[i]).range.start.0 as int,
            ),
    ensures
        edits_allowed(inside, nodes[roots[s].0].covered_range),
{
    let covered = nodes[roots[s].0].covered_range;
    assert forall|i: int| 0 <= i < inside.len() implies (#[trigger] inside[i]).range.blocks.0 > 0
        && inside[i].range.end() <= u64::MAX && covered.start.0 <= inside[i].range.start.0
        && inside[i].range.end() <= covered.end() by {
        assert(edits.contains(inside[i]));
        let k = choose|k: int| 0 <= k < edits.len() && edits[k] == inside[i];
        assert(edits[k].range.blocks.0 > 0);
        lemma_edit_in_shard(
            nodes,
            roots,
            blocks,
            s,
            edits,
            k,
            inside[i].range.start.0 as int,
        );
    }
    assert forall|i: int, j: int| 0 <= i < inside.len() && 0 <= j < inside.len() && i
        != j implies inside[i] != inside[j] by {
        if i < j {
            assert(inside[i].range.end() <= inside[j].range.start.0 || inside[j].range.end()
                <= inside[i].range.start.0);
        } else {
            assert(inside[j].range.end() <= inside[i].range.start.0 || inside[i].range.end()
                <= inside[j].range.start.0);
        }
    }
    assert forall|i: int, j: int|
        0 <= i < inside.len() && 0 <= j < inside.len() && (#[trigger] inside[i]) != (
        #[trigger] inside[j]) implies inside[i].range.end() <= inside[j].range.start.0
        || inside[j].range.end() <= inside[i].range.start.0 by {
        if i < j {
            assert(inside[i].range.end() <= inside[j].range.start.0 || inside[j].range.end()
                <= inside[i].range.start.0);
        } else if j < i {
            assert(inside[j].range.end() <= inside[i].range.start.0 || inside[i].range.end()
                <= inside[j].range.start.0);
        }
    }
}

proof fn lemma_shard_outcome(
    nodes: Map<u128, MetadataNode>,
    roots: Seq<MetadataNodeId>,
    blocks: int,
    s: int,
    edits: Seq<TreeRangeEdit>,
    inside: Seq<TreeRangeEdit>,
    block: int,
    before: Option<SegmentBlock>,
    after: Option<SegmentBlock>,
)
    requires
        shards_wf(nodes, roots, blocks),
        edits_apart(edits),
        edits_in_shards(nodes, roots, edits),
        0 <= s < roots.len(),
        nodes[roots[s].0].covered_range.contains(block),
        forall|i: int| 0 <= i < inside.len() ==> edits.contains(#[trigger] inside[i]),
        forall|i: int|
            0 <= i < edits.len() && nodes[roots[s].0].covered_range.contains(
                (#[trigger] edits[i]).range.start.0 as int,
            ) ==> inside.contains(edits[i]),
        edit_outcome(inside, block, before, after),
    ensures
        edit_outcome(edits, block, before, after),
{
    assert forall|i: int| 0 <= i < edits.len() && (#[trigger] edits[i]).range.contains(
        block,
    ) implies after == edits[i].value_at(block) by {
        lemma_edit_in_shard(nodes, roots, blocks, s, edits, i, block);
        assert(inside.contains(edits[i]));
        let k = choose|k: int| 0 <= k < inside.len() && inside[k] == edits[i];
        assert(inside[k].range.contains(block));
    }
    if !is_edited(edits, block) {
        assert forall|i: int| 0 <= i < inside.len() implies !(
        #[trigger] inside[i]).range.contains(block) by {
            assert(edits.contains(inside[i]));
            let k = choose|k: int| 0 <= k < edits.len() && edits[k] == inside[i];
            assert(!edits[k].range.contains(block));
        }
    }
}

} // verus!
