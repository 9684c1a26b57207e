//! Replacing byte ranges of metadata trees with append runs.
use vstd::prelude::*;

use crate::read_plan::{
    keeps_runs_backed, node_runs_backed, run_backed, runs_backed, tree_runs_backed, RunLogMap,
};
use crate::block_api::ByteRange;
use crate::error::StorageError;
use crate::id::MetadataNodeId;
use crate::idmap::IdMap;
use crate::leaf::{extent_at, extents_wf, replace_run_backed_file_extents, slice_run_extent};
use crate::metadata_records::{MetadataChild, MetadataNode, MetadataNodeKind, RunBackedFileExtent};
use crate::storage_nodes::{entry_backed, is_entry_backed, SegmentRecord};
use crate::ranges::byte_range_intersection;
use crate::tree::{
    block_at, child_index, children_wf, copy_vec, has_child_at, keeps_nodes,
    law_trees_are_immutable, lemma_child_unique, node_backed, node_wf, run_at, tree_backed,
    tree_wf, TreeEditResult, TreeStore,
};
use crate::tree_edit::{
    block_range_to_byte_range, lemma_byte_in_blocks, lemma_mul_le, lemma_same_ranges_tile,
    same_extents,
};

verus! {

/// The parts of the extents inside a range.
fn slice_extents(extents: &Vec<RunBackedFileExtent>, outer: ByteRange, range: ByteRange) -> (parts:
    Vec<RunBackedFileExtent>)
    requires
        extents_wf(extents@, outer.offset as int, outer.end()),
        outer.end() <= u64::MAX,
        range.end() <= u64::MAX,
    ensures
        extents_wf(parts@, range.offset as int, range.end()),
        forall|byte: int|
            range.contains(byte) ==> #[trigger] extent_at(parts@, byte) == extent_at(extents@, byte),
        forall|logs: RunLogMap| #[trigger]
            runs_backed(logs, extents@) ==> runs_backed(logs, parts@),
{
    let mut parts: Vec<RunBackedFileExtent> = Vec::new();
    let mut i: usize = 0;
    assert(extents@.take(0) =~= Seq::<RunBackedFileExtent>::empty());
    while i < extents.len()
        invariant
            i <= extents@.len(),
            outer.end() <= u64::MAX,
            range.end() <= u64::MAX,
            extents_wf(extents@, outer.offset as int, outer.end()),
            extents_wf(parts@, range.offset as int, range.end()),
            forall|logs: RunLogMap| #[trigger]
                runs_backed(logs, extents@) ==> runs_backed(logs, parts@),
            forall|k: int|
                0 <= k < parts@.len() ==> exists|m: int|
                    0 <= m < i && (#[trigger] parts@[k]).range().end() <= (
                    #[trigger] extents@[m]).range().end(),
            forall|byte: int|
                range.contains(byte) ==> #[trigger] extent_at(parts@, byte) == extent_at(
                    extents@.take(i as int),
                    byte,
                ),
        decreases extents@.len() - i,
    {
        let extent = extents[i];
        let ghost before = parts@;
        proof {
            assert(extents@[i as int].wf());
            assert(extents@.take(i + 1).drop_last() =~= extents@.take(i as int));
        }
        let extent_range = ByteRange { offset: extent.file_offset_start, len: extent.payload_len };
        match byte_range_intersection(extent_range, range) {
            Ok(Some(overlap)) => {
                let end: u64 = overlap.offset + overlap.len;
                if let Ok(Some(part)) = slice_run_extent(&extent, overlap.offset, end) {
                    parts.push(part);
                    proof {
                        assert(parts@.drop_last() =~= before);
                        assert forall|logs: RunLogMap| #[trigger] runs_backed(
                            logs,
                            extents@,
                        ) implies runs_backed(logs, parts@) by {
                            assert(run_backed(logs, extents@[i as int]));
                            crate::leaf::lemma_slice_backed(logs, extent, part);
                            assert(runs_backed(logs, before));
                        }
                        assert(part.range().end() <= extents@[i as int].range().end());
                        assert forall|k: int| 0 <= k < before.len() implies (
                        #[trigger] before[k]).range().end() <= part.file_offset_start by {
                            let m = choose|m: int|
                                0 <= m < i && before[k].range().end() <= (
                                #[trigger] extents@[m]).range().end();
                            assert(extents@[m].range().end()
                                <= extents@[i as int].file_offset_start);
                        }
                        assert forall|k: int| 0 <= k < parts@.len() implies exists|m: int|
                            0 <= m < i + 1 && (#[trigger] parts@[k]).range().end() <= (
                            #[trigger] extents@[m]).range().end() by {
                            if k < before.len() {
                                let m = choose|m: int|
                                    0 <= m < i && before[k].range().end() <= (
                                    #[trigger] extents@[m]).range().end();
                                assert(parts@[k].range().end() <= extents@[m].range().end());
                            } else {
                                assert(parts@[k].range().end()
                                    <= extents@[i as int].range().end());
                            }
                        }
                        assert forall|byte: int| range.contains(byte) implies #[trigger] extent_at(
                            parts@,
                            byte,
                        ) == extent_at(extents@.take(i + 1), byte) by {
                            assert(extent_at(before, byte) == extent_at(
                                extents@.take(i as int),
                                byte,
                            ));
                            assert(overlap.contains(byte) <==> extent.range().contains(byte)
                                && range.contains(byte));
                            assert(part.byte_at(byte) == extent.byte_at(byte));
                        }
                    }
                } else {
                    assert(false);
                }
            },
            Ok(None) => {
                proof {
                    assert forall|byte: int| range.contains(byte) implies #[trigger] extent_at(
                        parts@,
                        byte,
                    ) == extent_at(extents@.take(i + 1), byte) by {
                        assert(!extent.range().contains(byte));
                    }
                }
            },
            Err(_) => {
                assert(false);
            },
        }
        i = i + 1;
    }
    assert(extents@.take(extents@.len() as int) =~= extents@);
    parts
}

/// What a tree holds after runs were put over a range of it.
pub open spec fn is_run_edited_tree(
    before: Map<u128, MetadataNode>,
    after: Map<u128, MetadataNode>,
    block_size: u64,
    old_root: u128,
    new_root: u128,
    range: ByteRange,
    replacements: Seq<RunBackedFileExtent>,
) -> bool {
    let covered = before[old_root].covered_range;
    &&& after.contains_key(new_root)
    &&& after[new_root].covered_range == covered
    &&& forall|block: int|
        covered.contains(block) ==> #[trigger] block_at(after, new_root, block) == block_at(
            before,
            old_root,
            block,
        )
    &&& forall|byte: int|
        covered.contains(byte / block_size as int) ==> #[trigger] run_at(
            after,
            new_root,
            block_size,
            byte,
        ) == if range.contains(byte) {
            extent_at(replacements, byte)
        } else {
            run_at(before, old_root, block_size, byte)
        }
}

spec fn is_run_edited_child(
    before: Map<u128, MetadataNode>,
    after: Map<u128, MetadataNode>,
    block_size: u64,
    old_child: MetadataChild,
    new_child: MetadataChild,
    range: ByteRange,
    replacements: Seq<RunBackedFileExtent>,
) -> bool {
    &&& new_child.range == old_child.range
    &&& before[old_child.node_id.0].covered_range == old_child.range
    &&& is_run_edited_tree(
        before,
        after,
        block_size,
        old_child.node_id.0,
        new_child.node_id.0,
        range,
        replacements,
    )
}

/// Puts runs over a byte range of a tree. All old nodes stay as they are, and
/// the segments below the runs stay mapped.
#[verifier::rlimit(60)]
pub fn replace_tree_byte_range_with_run_extents_at(
    store: &mut TreeStore,
    segments: &IdMap<SegmentRecord>,
    block_size: u64,
    node_id: MetadataNodeId,
    range: ByteRange,
    replacements: &Vec<RunBackedFileExtent>,
) -> (result: Result<TreeEditResult, StorageError>)
    requires
        old(store).wf(block_size),
        old(store).nodes@.contains_key(node_id.0),
        range.end() <= u64::MAX,
        extents_wf(replacements@, range.offset as int, range.end()),
    ensures
        final(store).wf(block_size),
        keeps_nodes(old(store).nodes@, final(store).nodes@),
        old(store).next_metadata_node_id <= final(store).next_metadata_node_id,
        final(store).spare() == old(store).spare(),
        tree_backed(old(store).nodes@, segments@) ==> tree_backed(
            final(store).nodes@,
            segments@,
        ),
        keeps_runs_backed(old(store).nodes@, final(store).nodes@, replacements@),
        result matches Ok(edit) ==> is_run_edited_tree(
            old(store).nodes@,
            final(store).nodes@,
            block_size,
            node_id.0,
            edit.root.0,
            range,
            replacements@,
        ) && edit.changed == (edit.root != node_id) && (!edit.changed ==> *final(store) == *old(
            store,
        )),
        result is Err ==> !tree_backed(old(store).nodes@, segments@)
            || final(store).next_metadata_node_id == u128::MAX,
    decreases node_id.0,
{
    let ghost before = store.nodes@;
    let ghost id = node_id.0;
    assert(node_wf(before, id, block_size));
    let node = match store.nodes.get(node_id.raw()) {
        Some(node) => node,
        None => return Err(StorageError::not_found("metadata_node", node_id.raw())),
    };
    let covered = node.covered_range;
    proof {
        lemma_byte_in_blocks(covered, block_size, 0);
        lemma_mul_le(covered.start.0 as int, covered.end(), block_size as int);
        lemma_mul_le(covered.blocks.0 as int, covered.end(), block_size as int);
        assert(covered.end() <= u64::MAX) by (nonlinear_arith)
            requires
                covered.end() * block_size <= u64::MAX,
                block_size >= 1,
                covered.end() >= 0,
        ;
        assert forall|byte: int| covered.contains(#[trigger] (byte / block_size as int)) implies
            covered.start.0 * block_size <= byte < covered.end() * block_size by {
            assert(byte >= 0) by (nonlinear_arith)
                requires
                    byte / block_size as int >= 0,
                    block_size > 0,
            ;
            lemma_byte_in_blocks(covered, block_size, byte);
        }
    }
    let node_range = match block_range_to_byte_range(covered, block_size) {
        Ok(node_range) => node_range,
        Err(error) => {
            assert(false);
            return Err(error);
        },
    };
    let overlap = match byte_range_intersection(node_range, range) {
        Ok(Some(overlap)) => overlap,
        Ok(None) => {
            proof {
                assert forall|byte: int| covered.contains(byte / block_size as int) implies #[trigger]
                    run_at(before, id, block_size, byte) == (if range.contains(byte) {
                    extent_at(replacements@, byte)
                } else {
                    run_at(before, id, block_size, byte)
                }) by {
                    assert(node_range.contains(byte));
                }
            }
            return Ok(TreeEditResult { root: node_id, changed: false });
        },
        Err(error) => {
            assert(false);
            return Err(error);
        },
    };
    match &node.kind {
        MetadataNodeKind::Leaf { entries, run_extents } => {
            let leaf_replacements = slice_extents(replacements, range, overlap);
            let new_run_extents = replace_run_backed_file_extents(
                run_extents,
                overlap,
                &leaf_replacements,
                Ghost(covered.start.0 * block_size),
                Ghost(covered.end() * block_size),
            );
            proof {
                assert forall|byte: int| covered.contains(byte / block_size as int) implies #[trigger]
                    extent_at(new_run_extents@, byte) == (if range.contains(byte) {
                    extent_at(replacements@, byte)
                } else {
                    extent_at(run_extents@, byte)
                }) by {
                    assert(node_range.contains(byte));
                    assert(overlap.contains(byte) <==> range.contains(byte));
                }
            }
            if same_extents(&new_run_extents, run_extents) {
                return Ok(TreeEditResult { root: node_id, changed: false });
            }
            let new_entries = copy_vec(entries);
            assert(tree_backed(before, segments@) ==> node_backed(before[id], segments@));
            let mut i: usize = 0;
            while i < new_entries.len()
                invariant
                    i <= new_entries@.len(),
                    *store == *old(store),
                    store.wf(block_size),
                    before == store.nodes@,
                    before.contains_key(id),
                    before[id].kind matches MetadataNodeKind::Leaf { entries: kept, .. } && kept@
                        == new_entries@,
                    forall|k: int|
                        0 <= k < i ==> entry_backed(segments@, #[trigger] new_entries@[k]),
                decreases new_entries@.len() - i,
            {
                if !is_entry_backed(segments, new_entries[i]) {
                    let segment_id = new_entries[i].segment_id;
                    proof {
                        assert(!entry_backed(segments@, new_entries@[i as int]));
                        if tree_backed(before, segments@) {
                            assert(node_backed(before[id], segments@));
                        }
                    }
                    return Err(StorageError::not_found("segment", segment_id.raw()));
                }
                i = i + 1;
            }
            let kind = MetadataNodeKind::Leaf {
                entries: new_entries,
                run_extents: new_run_extents,
            };
            match store.allocate_metadata_node(covered, kind, Ghost(block_size)) {
                Ok(root) => {
                    proof {
                        let after = store.nodes@;
                        assert forall|logs: RunLogMap| #[trigger] tree_runs_backed(before, logs)
                            && runs_backed(logs, replacements@) implies tree_runs_backed(
                            after,
                            logs,
                        ) by {
                            assert(node_runs_backed(before[id], logs));
                            assert(runs_backed(logs, run_extents@));
                            assert(runs_backed(logs, leaf_replacements@));
                            assert forall|k: u128| #[trigger] after.contains_key(
                                k,
                            ) implies node_runs_backed(after[k], logs) by {
                                if k != root.0 {
                                    assert(before.contains_key(k));
                                }
                            }
                        }
                        if tree_backed(before, segments@) {
                            assert forall|k: u128| #[trigger] after.contains_key(k) implies node_backed(
                                after[k],
                                segments@,
                            ) by {
                                if k != root.0 {
                                    assert(before.contains_key(k));
                                }
                            }
                        }
                        assert(root.0 != id);
                    }
                    Ok(TreeEditResult { root, changed: true })
                },
                Err(error) => Err(error),
            }
        },
        MetadataNodeKind::Internal { children } => {
            let children = copy_vec(children);
            let ghost old_children = children@;
            let ghost start = *store;
            let mut changed = false;
            let mut new_children: Vec<MetadataChild> = Vec::new();
            let mut i: usize = 0;
            assert(children_wf(before, old_children, covered, id));
            while i < children.len()
                invariant
                    i <= children@.len(),
                    children@ == old_children,
                    children_wf(before, old_children, covered, id),
                    id == node_id.0,
                    before.contains_key(id),
                    before == start.nodes@,
                    start == *old(store),
                    tree_wf(before, block_size),
                    range.end() <= u64::MAX,
                    extents_wf(replacements@, range.offset as int, range.end()),
                    store.wf(block_size),
                    keeps_nodes(before, store.nodes@),
                    start.next_metadata_node_id <= store.next_metadata_node_id,
                    store.spare() == start.spare(),
                    tree_backed(before, segments@) ==> tree_backed(store.nodes@, segments@),
                    keeps_runs_backed(before, store.nodes@, replacements@),
                    new_children@.len() == i,
                    forall|k: int|
                        0 <= k < i ==> #[trigger] is_run_edited_child(
                            before,
                            store.nodes@,
                            block_size,
                            old_children[k],
                            new_children@[k],
                            range,
                            replacements@,
                        ),
                    !changed ==> *store == start && new_children@ == old_children.take(i as int),
                    changed ==> new_children@ != old_children.take(i as int),
                decreases children@.len() - i,
            {
                let child = children[i];
                let ghost nodes_before = store.nodes@;
                let ghost new_before = new_children@;
                proof {
                    assert(old_children[i as int] == child);
                    assert(before.contains_key(child.node_id.0));
                    assert(nodes_before.contains_key(child.node_id.0));
                }
                let child_result = match replace_tree_byte_range_with_run_extents_at(
                    store,
                    segments,
                    block_size,
                    child.node_id,
                    range,
                    replacements,
                ) {
                    Ok(child_result) => child_result,
                    Err(error) => return Err(error),
                };
                let new_child = MetadataChild { range: child.range, node_id: child_result.root };
                new_children.push(new_child);
                changed = changed || child_result.changed;
                proof {
                    law_trees_are_immutable(before, nodes_before, block_size, child.node_id.0);
                    assert(is_run_edited_child(
                        before,
                        store.nodes@,
                        block_size,
                        child,
                        new_child,
                        range,
                        replacements@,
                    ));
                    assert forall|k: int| 0 <= k < i implies #[trigger] is_run_edited_child(
                        before,
                        store.nodes@,
                        block_size,
                        old_children[k],
                        new_children@[k],
                        range,
                        replacements@,
                    ) by {
                        assert(new_children@[k] == new_before[k]);
                        assert(is_run_edited_child(
                            before,
                            nodes_before,
                            block_size,
                            old_children[k],
                            new_before[k],
                            range,
                            replacements@,
                        ));
                        law_trees_are_immutable(
                            nodes_before,
                            store.nodes@,
                            block_size,
                            new_before[k].node_id.0,
                        );
                    }
                    if !child_result.changed {
                        assert(new_child == child);
                    }
                    let longer = old_children.take(i + 1);
                    assert(longer =~= old_children.take(i as int).push(child));
                    if changed {
                        if new_children@ == longer {
                            assert(new_children@.take(i as int) =~= new_before);
                            assert(longer.take(i as int) =~= old_children.take(i as int));
                            assert(new_children@[i as int] == longer[i as int]);
                        }
                    } else {
                        assert(new_children@ =~= longer);
                    }
                }
                i = i + 1;
            }
            assert(old_children.take(old_children.len() as int) =~= old_children);
            if !changed {
                proof {
                    lemma_run_joined(
                        before,
                        store.nodes@,
                        store.nodes@,
                        block_size,
                        id,
                        id,
                        range,
                        replacements@,
                    );
                }
                return Ok(TreeEditResult { root: node_id, changed: false });
            }
            let ghost nodes_after = store.nodes@;
            let ghost joined = new_children@;
            let ghost next = store.next_metadata_node_id;
            let kind = MetadataNodeKind::Internal { children: new_children };
            proof {
                assert forall|k: int| 0 <= k < old_children.len() implies (
                #[trigger] joined[k]).range == old_children[k].range by {
                    assert(is_run_edited_child(
                        before,
                        nodes_after,
                        block_size,
                        old_children[k],
                        joined[k],
                        range,
                        replacements@,
                    ));
                }
                lemma_same_ranges_tile(old_children, joined, covered);
                let node = MetadataNode {
                    node_id: MetadataNodeId(next),
                    covered_range: covered,
                    kind,
                };
                let nodes = nodes_after.insert(next, node);
                assert forall|k: int| 0 <= k < joined.len() implies nodes.contains_key(
                    (#[trigger] joined[k]).node_id.0,
                ) && joined[k].node_id.0 < next && nodes[joined[k].node_id.0].covered_range
                    == joined[k].range && joined[k].range.blocks.0 > 0 by {
                    assert(is_run_edited_child(
                        before,
                        nodes_after,
                        block_size,
                        old_children[k],
                        joined[k],
                        range,
                        replacements@,
                    ));
                    assert(old_children[k].range.blocks.0 > 0);
                }
                assert(children_wf(nodes, joined, covered, next));
            }
            match store.allocate_metadata_node(covered, kind, Ghost(block_size)) {
                Ok(root) => {
                    proof {
                        let after = store.nodes@;
                        assert forall|logs: RunLogMap| #[trigger] tree_runs_backed(before, logs)
                            && runs_backed(logs, replacements@) implies tree_runs_backed(
                            after,
                            logs,
                        ) by {
                            assert(tree_runs_backed(nodes_after, logs));
                            assert forall|k: u128| #[trigger] after.contains_key(
                                k,
                            ) implies node_runs_backed(after[k], logs) by {
                                if k != root.0 {
                                    assert(nodes_after.contains_key(k));
                                }
                            }
                        }
                        if tree_backed(before, segments@) {
                            assert forall|k: u128| #[trigger] after.contains_key(k) implies node_backed(
                                after[k],
                                segments@,
                            ) by {
                                if k != root.0 {
                                    assert(nodes_after.contains_key(k));
                                }
                            }
                        }
                        lemma_run_joined(
                            before,
                            nodes_after,
                            after,
                            block_size,
                            id,
                            root.0,
                            range,
                            replacements@,
                        );
                        assert(nodes_after.contains_key(id));
                        assert(root.0 != id);
                    }
                    Ok(TreeEditResult { root, changed: true })
                },
                Err(error) => Err(error),
            }
        },
    }
}

proof fn lemma_run_joined(
    before: Map<u128, MetadataNode>,
    middle: Map<u128, MetadataNode>,
    after: Map<u128, MetadataNode>,
    block_size: u64,
    old_root: u128,
    new_root: u128,
    range: ByteRange,
    replacements: Seq<RunBackedFileExtent>,
)
    requires
        tree_wf(before, block_size),
        tree_wf(middle, block_size),
        tree_wf(after, block_size),
        keeps_nodes(middle, after),
        before.contains_key(old_root),
        after.contains_key(new_root),
        before[old_root].kind is Internal,
        after[new_root].kind is Internal,
        after[new_root].covered_range == before[old_root].covered_range,
        before[old_root].kind->Internal_children@.len()
            == after[new_root].kind->Internal_children@.len(),
        forall|k: int|
            0 <= k < before[old_root].kind->Internal_children@.len()
                ==> #[trigger] is_run_edited_child(
                before,
                middle,
                block_size,
                before[old_root].kind->Internal_children@[k],
                after[new_root].kind->Internal_children@[k],
                range,
                replacements,
            ),
    ensures
        is_run_edited_tree(before, after, block_size, old_root, new_root, range, replacements),
{
    let covered = before[old_root].covered_range;
    let old_children = before[old_root].kind->Internal_children@;
    let new_children = after[new_root].kind->Internal_children@;
    assert(node_wf(before, old_root, block_size));
    assert(node_wf(after, new_root, block_size));
    assert forall|block: int| covered.contains(block) implies #[trigger] block_at(
        after,
        new_root,
        block,
    ) == block_at(before, old_root, block) by {
        assert(has_child_at(old_children, block));
        let i = child_index(old_children, block);
        assert(is_run_edited_child(
            before,
            middle,
            block_size,
            old_children[i],
            new_children[i],
            range,
            replacements,
        ));
        lemma_child_unique(new_children, covered, i, block);
        law_trees_are_immutable(middle, after, block_size, new_children[i].node_id.0);
        assert(old_children[i].node_id.0 < old_root);
        assert(new_children[i].node_id.0 < new_root);
        assert(block_at(after, new_root, block) == block_at(
            after,
            new_children[i].node_id.0,
            block,
        ));
        assert(block_at(before, old_root, block) == block_at(
            before,
            old_children[i].node_id.0,
            block,
        ));
        assert(block_at(middle, new_children[i].node_id.0, block) == block_at(
            before,
            old_children[i].node_id.0,
            block,
        ));
    }
    assert forall|byte: int| covered.contains(byte / block_size as int) implies #[trigger] run_at(
        after,
        new_root,
        block_size,
        byte,
    ) == (if range.contains(byte) {
        extent_at(replacements, byte)
    } else {
        run_at(before, old_root, block_size, byte)
    }) by {
        let block = byte / block_size as int;
        assert(has_child_at(old_children, block));
        let i = child_index(old_children, block);
        assert(is_run_edited_child(
            before,
            middle,
            block_size,
            old_children[i],
            new_children[i],
            range,
            replacements,
        ));
        lemma_child_unique(new_children, covered, i, block);
        law_trees_are_immutable(middle, after, block_size, new_children[i].node_id.0);
        assert(old_children[i].node_id.0 < old_root);
        assert(new_children[i].node_id.0 < new_root);
        assert(run_at(after, new_root, block_size, byte) == run_at(
            after,
            new_children[i].node_id.0,
            block_size,
            byte,
        ));
        assert(run_at(before, old_root, block_size, byte) == run_at(
            before,
            old_children[i].node_id.0,
            block_size,
            byte,
        ));
        assert(run_at(middle, new_children[i].node_id.0, block_size, byte) == (if range.contains(
            byte,
        ) {
            extent_at(replacements, byte)
        } else {
            run_at(before, old_children[i].node_id.0, block_size, byte)
        }));
    }
}

/// Puts runs over a byte range of the tree under a root.
pub fn replace_tree_byte_range_with_run_extents(
    store: &mut TreeStore,
    segments: &IdMap<SegmentRecord>,
    block_size: u64,
    root_id: MetadataNodeId,
    range: ByteRange,
    replacements: &Vec<RunBackedFileExtent>,
) -> (result: Result<TreeEditResult, StorageError>)
    requires
        old(store).wf(block_size),
        range.end() <= u64::MAX,
        extents_wf(replacements@, range.offset as int, range.end()),
    ensures
        final(store).wf(block_size),
        keeps_nodes(old(store).nodes@, final(store).nodes@),
        old(store).next_metadata_node_id <= final(store).next_metadata_node_id,
        final(store).spare() == old(store).spare(),
        tree_backed(old(store).nodes@, segments@) ==> tree_backed(
            final(store).nodes@,
            segments@,
        ),
        keeps_runs_backed(old(store).nodes@, final(store).nodes@, replacements@),
        range.len == 0 ==> result == Ok::<TreeEditResult, StorageError>(
            TreeEditResult { root: root_id, changed: false },
        ),
        range.len > 0 && !old(store).nodes@.contains_key(root_id.0) ==> (result matches Err(error)
            && error is NotFound),
        result matches Ok(edit) ==> old(store).nodes@.contains_key(root_id.0)
            ==> is_run_edited_tree(
            old(store).nodes@,
            final(store).nodes@,
            block_size,
            root_id.0,
            edit.root.0,
            range,
            replacements@,
        ),
        old(store).nodes@.contains_key(root_id.0) && result is Err ==> !tree_backed(
            old(store).nodes@,
            segments@,
        ) || final(store).next_metadata_node_id == u128::MAX,
{
    if range.len == 0 {
        return Ok(TreeEditResult { root: root_id, changed: false });
    }
    if !store.nodes.contains_key(root_id.raw()) {
        return Err(StorageError::not_found("metadata_node", root_id.raw()));
    }
    replace_tree_byte_range_with_run_extents_at(
        store,
        segments,
        block_size,
        root_id,
        range,
        replacements,
    )
}

} // verus!
