//! Replacing ranges of metadata trees.
use vstd::prelude::*;

use crate::read_plan::{
    keeps_runs_backed, node_runs_backed, runs_backed, tree_runs_backed, RunLogMap,
};
use crate::block_api::{BlockRange, ByteRange};
use crate::error::StorageError;
use crate::id::{BlockIndex, MetadataNodeId};
use crate::idmap::IdMap;
use crate::leaf::{
    cut_from, extent_at, extents_wf, from_entry, leaf_at, leaf_wf, replace_leaf_entries,
    replace_run_backed_file_extents,
};
use crate::metadata_records::{
    LeafEntry, MetadataChild, MetadataNode, MetadataNodeKind, RunBackedFileExtent,
};
use crate::storage_nodes::{entry_backed, is_entry_backed, SegmentRecord};
use crate::tree::{
    block_at, child_index, children_tile, children_wf, copy_vec, edited, edits_backed, edits_wf,
    has_child_at, is_edited, keeps_nodes, law_trees_are_immutable, lemma_child_unique,
    node_backed, node_wf, run_at, tree_backed, tree_wf, TreeEditResult, TreeRangeEdit, TreeStore,
};

verus! {

pub proof fn lemma_edited_untouched(
    edits: Seq<TreeRangeEdit>,
    block: int,
    before: Option<crate::leaf::SegmentBlock>,
)
    requires
        !is_edited(edits, block),
    ensures
        edited(edits, block, before) == before,
    decreases edits.len(),
{
    if edits.len() > 0 {
        assert(!edits[edits.len() - 1].range.contains(block));
        let shorter = edits.drop_last();
        assert forall|i: int| 0 <= i < shorter.len() implies !(
        #[trigger] shorter[i]).range.contains(block) by {
            assert(!edits[i].range.contains(block));
        }
        lemma_edited_untouched(shorter, block, before);
    }
}

/// In sound edits the one that covers a block decides it.
pub proof fn lemma_edited_by(
    edits: Seq<TreeRangeEdit>,
    i: int,
    block: int,
    before: Option<crate::leaf::SegmentBlock>,
)
    requires
        edits_wf(edits),
        0 <= i < edits.len(),
        edits[i].range.contains(block),
    ensures
        edited(edits, block, before) == edits[i].value_at(block),
    decreases edits.len(),
{
    if i < edits.len() - 1 {
        assert(edits[i].range.end() <= edits[edits.len() - 1].range.start.0);
        let shorter = edits.drop_last();
        assert(edits_wf(shorter)) by {
            assert forall|k: int| 0 <= k < shorter.len() implies (#[trigger] shorter[k]).wf() by {
                assert(edits[k].wf());
            }
        }
        lemma_edited_by(shorter, i, block, before);
    }
}

proof fn lemma_is_edited_push(edits: Seq<TreeRangeEdit>, i: int, block: int)
    requires
        0 <= i < edits.len(),
    ensures
        is_edited(edits.take(i + 1), block) <==> is_edited(edits.take(i), block)
            || edits[i].range.contains(block),
{
    let (shorter, longer) = (edits.take(i), edits.take(i + 1));
    if is_edited(shorter, block) {
        let k = choose|k: int|
            0 <= k < shorter.len() && (#[trigger] shorter[k]).range.contains(block);
        assert(longer[k].range.contains(block));
    }
    if edits[i].range.contains(block) {
        assert(longer[i].range.contains(block));
    }
    if is_edited(longer, block) {
        let k = choose|k: int|
            0 <= k < longer.len() && (#[trigger] longer[k]).range.contains(block);
        if k < i {
            assert(shorter[k].range.contains(block));
        }
    }
}

/// Whether some edit reaches into a range.
fn any_edit_overlaps(edits: &Vec<TreeRangeEdit>, range: BlockRange) -> (found: bool)
    requires
        edits_wf(edits@),
        range.end() <= u64::MAX,
    ensures
        !found ==> forall|block: int| range.contains(block) ==> !#[trigger] is_edited(edits@, block),
{
    let end: u64 = range.start.0 + range.blocks.0;
    let mut i: usize = 0;
    while i < edits.len()
        invariant
            i <= edits@.len(),
            end == range.end(),
            edits_wf(edits@),
            forall|block: int, k: int|
                0 <= k < i && range.contains(block) ==> !#[trigger] edits@[k].range.contains(block),
        decreases edits@.len() - i,
    {
        let edit = edits[i];
        assert(edits@[i as int].wf());
        if edit.range.start.0 < end && range.start.0 < edit.range.start.0 + edit.range.blocks.0 {
            return true;
        }
        i = i + 1;
    }
    false
}

/// The bytes of a block range.
pub fn block_range_to_byte_range(range: BlockRange, block_size: u64) -> (result: Result<
    ByteRange,
    StorageError,
>)
    ensures
        result is Ok <==> range.start.0 * block_size <= u64::MAX && range.blocks.0 * block_size
            <= u64::MAX,
        result matches Ok(bytes) ==> bytes.offset == range.start.0 * block_size && bytes.len
            == range.blocks.0 * block_size,
        result matches Err(error) ==> error is InvalidArgument,
{
    let offset: u64 = match range.start.0.checked_mul(block_size) {
        Some(offset) => offset,
        None => return Err(StorageError::invalid_argument("block range byte start overflows")),
    };
    let len: u64 = match range.blocks.0.checked_mul(block_size) {
        Some(len) => len,
        None => return Err(StorageError::invalid_argument("block range byte length overflows")),
    };
    Ok(ByteRange { offset, len })
}

/// A byte lies in the bytes of a block range exactly if its block lies in it.
pub proof fn lemma_byte_in_blocks(range: BlockRange, block_size: u64, byte: int)
    requires
        block_size > 0,
        byte >= 0,
    ensures
        range.start.0 * block_size <= byte < range.end() * block_size <==> range.contains(
            byte / block_size as int,
        ),
        range.end() * block_size == range.start.0 * block_size + range.blocks.0 * block_size,
{
    let b = block_size as int;
    let (s, e) = (range.start.0 as int, range.end());
    let q = byte / b;
    vstd::arithmetic::div_mod::lemma_fundamental_div_mod(byte, b);
    assert(e * b == s * b + range.blocks.0 * b) by (nonlinear_arith)
        requires
            e == s + range.blocks.0,
    ;
    assert(s * b <= byte <==> s <= q) by (nonlinear_arith)
        requires
            byte == b * q + byte % b,
            0 <= byte % b < b,
            b > 0,
    ;
    assert(byte < e * b <==> q < e) by (nonlinear_arith)
        requires
            byte == b * q + byte % b,
            0 <= byte % b < b,
            b > 0,
    ;
}

pub proof fn lemma_mul_le(a: int, b: int, c: int)
    requires
        a <= b,
        c >= 0,
    ensures
        a * c <= b * c,
{
    assert(a * c <= b * c) by (nonlinear_arith)
        requires
            a <= b,
            c >= 0,
    ;
}

fn same_entries(a: &Vec<LeafEntry>, b: &Vec<LeafEntry>) -> (same: bool)
    ensures
        same == (a@ == b@),
{
    if a.len() != b.len() {
        return false;
    }
    let mut i: usize = 0;
    while i < a.len()
        invariant
            i <= a@.len(),
            a@.len() == b@.len(),
            forall|k: int| 0 <= k < i ==> a@[k] == b@[k],
        decreases a@.len() - i,
    {
        if a[i] != b[i] {
            return false;
        }
        i = i + 1;
    }
    assert(a@ =~= b@);
    true
}

pub fn same_extents(a: &Vec<RunBackedFileExtent>, b: &Vec<RunBackedFileExtent>) -> (same: bool)
    ensures
        same == (a@ == b@),
{
    if a.len() != b.len() {
        return false;
    }
    let mut i: usize = 0;
    while i < a.len()
        invariant
            i <= a@.len(),
            a@.len() == b@.len(),
            forall|k: int| 0 <= k < i ==> a@[k] == b@[k],
        decreases a@.len() - i,
    {
        if a[i] != b[i] {
            return false;
        }
        i = i + 1;
    }
    assert(a@ =~= b@);
    true
}

/// The contents of a leaf after the edits.
fn edit_leaf(
    entries: &Vec<LeafEntry>,
    run_extents: &Vec<RunBackedFileExtent>,
    covered: BlockRange,
    block_size: u64,
    edits: &Vec<TreeRangeEdit>,
    segments: Ghost<Map<u128, SegmentRecord>>,
) -> (edited_leaf: (Vec<LeafEntry>, Vec<RunBackedFileExtent>))
    requires
        block_size > 0,
        covered.end() * block_size <= u64::MAX,
        leaf_wf(entries@, covered),
        extents_wf(run_extents@, covered.start.0 * block_size, covered.end() * block_size),
        edits_wf(edits@),
    ensures
        forall|logs: RunLogMap| #[trigger]
            runs_backed(logs, run_extents@) ==> runs_backed(logs, edited_leaf.1@),
        leaf_wf(edited_leaf.0@, covered),
        extents_wf(edited_leaf.1@, covered.start.0 * block_size, covered.end() * block_size),
        forall|block: int|
            covered.contains(block) ==> #[trigger] leaf_at(edited_leaf.0@, block) == edited(
                edits@,
                block,
                leaf_at(entries@, block),
            ),
        forall|byte: int|
            covered.contains(byte / block_size as int) ==> #[trigger] extent_at(
                edited_leaf.1@,
                byte,
            ) == if is_edited(edits@, byte / block_size as int) {
                None
            } else {
                extent_at(run_extents@, byte)
            },
        (forall|k: int| 0 <= k < entries@.len() ==> entry_backed(segments@, #[trigger] entries@[k]))
            && edits_backed(edits@, segments@) ==> forall|k: int|
            0 <= k < edited_leaf.0@.len() ==> entry_backed(
                segments@,
                #[trigger] edited_leaf.0@[k],
            ),
{
    let mut new_entries = copy_vec(entries);
    let mut new_extents = copy_vec(run_extents);
    let ghost low = covered.start.0 * block_size;
    let ghost high = covered.end() * block_size;
    let ghost backed = (forall|k: int|
        0 <= k < entries@.len() ==> entry_backed(segments@, #[trigger] entries@[k]))
        && edits_backed(edits@, segments@);
    let mut i: usize = 0;
    assert(edits@.take(0) =~= Seq::<TreeRangeEdit>::empty());
    while i < edits.len()
        invariant
            i <= edits@.len(),
            block_size > 0,
            covered.end() * block_size <= u64::MAX,
            low == covered.start.0 * block_size,
            high == covered.end() * block_size,
            edits_wf(edits@),
            leaf_wf(new_entries@, covered),
            extents_wf(new_extents@, low, high),
            forall|logs: RunLogMap| #[trigger]
                runs_backed(logs, run_extents@) ==> runs_backed(logs, new_extents@),
            forall|block: int|
                covered.contains(block) ==> #[trigger] leaf_at(new_entries@, block) == edited(
                    edits@.take(i as int),
                    block,
                    leaf_at(entries@, block),
                ),
            forall|byte: int|
                covered.contains(byte / block_size as int) ==> #[trigger] extent_at(
                    new_extents@,
                    byte,
                ) == if is_edited(edits@.take(i as int), byte / block_size as int) {
                    None
                } else {
                    extent_at(run_extents@, byte)
                },
            backed ==> edits_backed(edits@, segments@),
            backed ==> forall|k: int|
                0 <= k < new_entries@.len() ==> entry_backed(segments@, #[trigger] new_entries@[k]),
        decreases edits@.len() - i,
    {
        let edit = edits[i];
        proof {
            assert(edits@[i as int].wf());
            assert(edits@.take(i + 1).drop_last() =~= edits@.take(i as int));
            assert(edits@.take(i + 1).last() == edit);
            assert(covered.end() <= covered.end() * block_size) by (nonlinear_arith)
                requires
                    block_size >= 1,
                    covered.end() >= 0,
            ;
        }
        let overlap = match covered.intersection(edit.range) {
            Ok(overlap) => overlap,
            Err(_) => {
                assert(false);
                None
            },
        };
        if let Some(overlap) = overlap {
            proof {
                assert(overlap.contains(overlap.start.0 as int));
                assert(overlap.contains(overlap.end() - 1));
            }
            let replacement: Option<LeafEntry> = match edit.replacement {
                Some(replacement) => Some(
                    LeafEntry {
                        logical_start: overlap.start,
                        blocks: overlap.blocks,
                        segment_id: replacement.segment_id,
                        segment_offset: BlockIndex(overlap.start.0 - replacement.segment_base.0),
                    },
                ),
                None => None,
            };
            let ghost entries_before = new_entries@;
            let ghost extents_before = new_extents@;
            proof {
                lemma_mul_le(overlap.end(), covered.end(), block_size as int);
                lemma_mul_le(covered.start.0 as int, overlap.start.0 as int, block_size as int);
                lemma_byte_in_blocks(overlap, block_size, 0);
                lemma_mul_le(overlap.start.0 as int, overlap.end(), block_size as int);
                lemma_mul_le(overlap.blocks.0 as int, overlap.end(), block_size as int);
                assert(overlap.blocks.0 * block_size > 0) by (nonlinear_arith)
                    requires
                        overlap.blocks.0 > 0,
                        block_size > 0,
                ;
            }
            new_entries = replace_leaf_entries(&new_entries, covered, overlap, replacement);
            let overlap_bytes = match block_range_to_byte_range(overlap, block_size) {
                Ok(bytes) => bytes,
                Err(_) => {
                    assert(false);
                    ByteRange { offset: 0, len: 0 }
                },
            };
            let none: Vec<RunBackedFileExtent> = Vec::new();
            new_extents = replace_run_backed_file_extents(
                &new_extents,
                overlap_bytes,
                &none,
                Ghost(low),
                Ghost(high),
            );
            proof {
                assert forall|logs: RunLogMap| #[trigger] runs_backed(
                    logs,
                    run_extents@,
                ) implies runs_backed(logs, new_extents@) by {
                    assert(runs_backed(logs, extents_before));
                    assert(runs_backed(logs, none@));
                }
                assert forall|block: int| covered.contains(block) implies #[trigger] leaf_at(
                    new_entries@,
                    block,
                ) == edited(edits@.take(i + 1), block, leaf_at(entries@, block)) by {
                    assert(leaf_at(entries_before, block) == edited(
                        edits@.take(i as int),
                        block,
                        leaf_at(entries@, block),
                    ));
                    assert(overlap.contains(block) <==> edit.range.contains(block));
                }
                assert forall|byte: int| covered.contains(byte / block_size as int)
                    implies #[trigger] extent_at(new_extents@, byte) == if is_edited(
                    edits@.take(i + 1),
                    byte / block_size as int,
                ) {
                    None
                } else {
                    extent_at(run_extents@, byte)
                } by {
                    let block = byte / block_size as int;
                    lemma_is_edited_push(edits@, i as int, block);
                    assert(byte >= 0) by (nonlinear_arith)
                        requires
                            byte / block_size as int >= 0,
                            block_size > 0,
                    ;
                    lemma_byte_in_blocks(overlap, block_size, byte);
                    assert(overlap_bytes.contains(byte) <==> overlap.contains(block));
                    assert(overlap.contains(block) <==> edit.range.contains(block));
                    assert(extent_at(extents_before, byte) == if is_edited(
                        edits@.take(i as int),
                        block,
                    ) {
                        None
                    } else {
                        extent_at(run_extents@, byte)
                    });
                }
                if backed {
                    assert(edits@[i as int].backed(segments@));
                    assert forall|k: int| 0 <= k < new_entries@.len() implies entry_backed(
                        segments@,
                        #[trigger] new_entries@[k],
                    ) by {
                        let piece = new_entries@[k];
                        assert(from_entry(piece, entries_before, replacement));
                        if replacement != Some(piece) {
                            let m = choose|m: int|
                                0 <= m < entries_before.len() && cut_from(
                                    piece,
                                    #[trigger] entries_before[m],
                                );
                            assert(entry_backed(segments@, entries_before[m]));
                        }
                    }
                }
            }
        } else {
            proof {
                assert forall|block: int| covered.contains(block) implies #[trigger] leaf_at(
                    new_entries@,
                    block,
                ) == edited(edits@.take(i + 1), block, leaf_at(entries@, block)) by {
                    assert(!edit.range.contains(block));
                }
                assert forall|byte: int| covered.contains(byte / block_size as int)
                    implies #[trigger] extent_at(new_extents@, byte) == if is_edited(
                    edits@.take(i + 1),
                    byte / block_size as int,
                ) {
                    None
                } else {
                    extent_at(run_extents@, byte)
                } by {
                    lemma_is_edited_push(edits@, i as int, byte / block_size as int);
                    assert(!edit.range.contains(byte / block_size as int));
                }
            }
        }
        i = i + 1;
    }
    assert(edits@.take(edits@.len() as int) =~= edits@);
    (new_entries, new_extents)
}

impl TreeStore {
    /// Adds a new node under the next identifier.
    pub fn allocate_metadata_node(
        &mut self,
        covered_range: BlockRange,
        kind: MetadataNodeKind,
        block_size: Ghost<u64>,
    ) -> (result: Result<MetadataNodeId, StorageError>)
        requires
            old(self).wf(block_size@),
            node_wf(
                old(self).nodes@.insert(
                    old(self).next_metadata_node_id,
                    MetadataNode {
                        node_id: MetadataNodeId(old(self).next_metadata_node_id),
                        covered_range,
                        kind,
                    },
                ),
                old(self).next_metadata_node_id,
                block_size@,
            ),
        ensures
            final(self).wf(block_size@),
            keeps_nodes(old(self).nodes@, final(self).nodes@),
            final(self).spare() == old(self).spare(),
            result is Ok <==> old(self).next_metadata_node_id < u128::MAX,
            result matches Ok(id) ==> id.0 == old(self).next_metadata_node_id
                && final(self).next_metadata_node_id == id.0 + 1 && final(self).nodes@ == old(
                self,
            ).nodes@.insert(id.0, MetadataNode { node_id: id, covered_range, kind }),
            result matches Err(error) ==> error is Conflict && *final(self) == *old(self),
    {
        let raw: u128 = self.next_metadata_node_id;
        if raw == u128::MAX {
            return Err(StorageError::conflict("metadata node identifiers are used up"));
        }
        let node_id = MetadataNodeId(raw);
        let ghost before = self.nodes@;
        self.nodes.insert(raw, MetadataNode { node_id, covered_range, kind });
        self.next_metadata_node_id = raw + 1;
        proof {
            let after = self.nodes@;
            assert(!before.contains_key(raw));
            assert forall|id: u128| #[trigger] after.contains_key(id) implies node_wf(
                after,
                id,
                block_size@,
            ) by {
                if id != raw {
                    assert(before.contains_key(id));
                    assert(node_wf(before, id, block_size@));
                    if let MetadataNodeKind::Internal { children } = before[id].kind {
                        assert forall|i: int| 0 <= i < children@.len() implies after.contains_key(
                            (#[trigger] children@[i]).node_id.0,
                        ) && after[children@[i].node_id.0] == before[children@[i].node_id.0] by {
                            assert(before.contains_key(children@[i].node_id.0));
                        }
                    }
                }
            }
        }
        Ok(node_id)
    }
}

/// What an edited tree holds, seen from its old root.
pub open spec fn is_edited_tree(
    before: Map<u128, MetadataNode>,
    after: Map<u128, MetadataNode>,
    block_size: u64,
    old_root: u128,
    new_root: u128,
    edits: Seq<TreeRangeEdit>,
) -> bool {
    let covered = before[old_root].covered_range;
    &&& after.contains_key(new_root)
    &&& after[new_root].covered_range == covered
    &&& forall|block: int|
        covered.contains(block) ==> #[trigger] block_at(after, new_root, block) == edited(
            edits,
            block,
            block_at(before, old_root, block),
        )
    &&& forall|byte: int|
        covered.contains(byte / block_size as int) ==> #[trigger] run_at(
            after,
            new_root,
            block_size,
            byte,
        ) == if is_edited(edits, byte / block_size as int) {
            None
        } else {
            run_at(before, old_root, block_size, byte)
        }
}

/// Puts ranges in place of what a tree holds there. All old nodes stay as they
/// are; the edited tree has a new root unless nothing changed.
#[verifier::rlimit(60)]
pub fn replace_tree_ranges_at(
    store: &mut TreeStore,
    segments: &IdMap<SegmentRecord>,
    block_size: u64,
    node_id: MetadataNodeId,
    edits: &Vec<TreeRangeEdit>,
) -> (result: Result<TreeEditResult, StorageError>)
    requires
        old(store).wf(block_size),
        old(store).nodes@.contains_key(node_id.0),
        edits_wf(edits@),
    ensures
        final(store).wf(block_size),
        keeps_nodes(old(store).nodes@, final(store).nodes@),
        old(store).next_metadata_node_id <= final(store).next_metadata_node_id,
        final(store).spare() == old(store).spare(),
        tree_backed(old(store).nodes@, segments@) ==> tree_backed(
            final(store).nodes@,
            segments@,
        ),
        keeps_runs_backed(old(store).nodes@, final(store).nodes@, Seq::empty()),
        result matches Ok(edit) ==> is_edited_tree(
            old(store).nodes@,
            final(store).nodes@,
            block_size,
            node_id.0,
            edit.root.0,
            edits@,
        ) && edit.changed == (edit.root != node_id) && (!edit.changed ==> *final(store) == *old(
            store,
        )) && (edit.changed ==> old(store).next_metadata_node_id <= edit.root.0),
        result is Err ==> !edits_backed(edits@, segments@) || !tree_backed(
            old(store).nodes@,
            segments@,
        ) || final(store).next_metadata_node_id == u128::MAX,
    decreases node_id.0,
{
    let ghost before = store.nodes@;
    let ghost id = node_id.0;
    assert(node_wf(before, id, block_size));
    let node = match store.nodes.get(node_id.raw()) {
        Some(node) => node,
        None => return Err(StorageError::not_found("metadata_node", node_id.raw())),
    };
    let covered = node.covered_range;
    proof {
        assert(covered.end() <= u64::MAX) by (nonlinear_arith)
            requires
                covered.end() * block_size <= u64::MAX,
                block_size >= 1,
                covered.end() >= 0,
        ;
    }
    if !any_edit_overlaps(edits, covered) {
        proof {
            assert forall|block: int| covered.contains(block) implies #[trigger] block_at(
                before,
                id,
                block,
            ) == edited(edits@, block, block_at(before, id, block)) by {
                assert(!is_edited(edits@, block));
                lemma_edited_untouched(edits@, block, block_at(before, id, block));
            }
        }
        return Ok(TreeEditResult { root: node_id, changed: false });
    }
    match &node.kind {
        MetadataNodeKind::Leaf { entries, run_extents } => {
            let (new_entries, new_run_extents) = edit_leaf(
                entries,
                run_extents,
                covered,
                block_size,
                edits,
                Ghost(segments@),
            );
            if same_entries(&new_entries, entries) && same_extents(&new_run_extents, run_extents) {
                return Ok(TreeEditResult { root: node_id, changed: false });
            }
            let ghost sound = tree_backed(before, segments@) && edits_backed(edits@, segments@);
            assert(sound ==> node_backed(before[id], segments@));
            let mut i: usize = 0;
            while i < new_entries.len()
                invariant
                    i <= new_entries@.len(),
                    *store == *old(store),
                    store.wf(block_size),
                    before == store.nodes@,
                    sound == (tree_backed(before, segments@) && edits_backed(edits@, segments@)),
                    sound ==> forall|k: int|
                        0 <= k < new_entries@.len() ==> entry_backed(
                            segments@,
                            #[trigger] new_entries@[k],
                        ),
                    forall|k: int|
                        0 <= k < i ==> entry_backed(segments@, #[trigger] new_entries@[k]),
                decreases new_entries@.len() - i,
            {
                if !is_entry_backed(segments, new_entries[i]) {
                    let segment_id = new_entries[i].segment_id;
                    assert(!entry_backed(segments@, new_entries@[i as int]));
                    return Err(StorageError::not_found("segment", segment_id.raw()));
                }
                i = i + 1;
            }
            let ghost kept = store.nodes@;
            let kind = MetadataNodeKind::Leaf {
                entries: new_entries,
                run_extents: new_run_extents,
            };
            let result = store.allocate_metadata_node(covered, kind, Ghost(block_size));
            match result {
                Ok(root) => {
                    proof {
                        let after = store.nodes@;
                        assert forall|logs: RunLogMap| #[trigger] tree_runs_backed(
                            before,
                            logs,
                        ) implies tree_runs_backed(after, logs) by {
                            assert(node_runs_backed(before[id], logs));
                            assert(runs_backed(logs, run_extents@));
                            assert forall|k: u128| #[trigger] after.contains_key(
                                k,
                            ) implies node_runs_backed(after[k], logs) by {
                                if k != root.0 {
                                    assert(before.contains_key(k));
                                }
                            }
                        }
                        if tree_backed(before, segments@) {
                            assert forall|k: u128| #[trigger] after.contains_key(k) implies node_backed(
                                after[k],
                                segments@,
                            ) by {
                                if k != root.0 {
                                    assert(before.contains_key(k));
                                }
                            }
                        }
                        assert(root.0 != id);
                    }
                    Ok(TreeEditResult { root, changed: true })
                },
                Err(error) => Err(error),
            }
        },
        MetadataNodeKind::Internal { children } => {
            let children = copy_vec(children);
            let ghost old_children = children@;
            let ghost start = *store;
            let mut changed = false;
            let mut new_children: Vec<MetadataChild> = Vec::new();
            let mut i: usize = 0;
            assert(children_wf(before, old_children, covered, id));
            while i < children.len()
                invariant
                    i <= children@.len(),
                    children@ == old_children,
                    children_wf(before, old_children, covered, id),
                    id == node_id.0,
                    before.contains_key(id),
                    node_wf(before, id, block_size),
                    before == start.nodes@,
                    before == old(store).nodes@,
                    start == *old(store),
                    tree_wf(before, block_size),
                    covered.end() <= u64::MAX,
                    edits_wf(edits@),
                    store.wf(block_size),
                    keeps_nodes(before, store.nodes@),
                    start.next_metadata_node_id <= store.next_metadata_node_id,
                    store.spare() == start.spare(),
                    tree_backed(before, segments@) ==> tree_backed(store.nodes@, segments@),
                    keeps_runs_backed(before, store.nodes@, Seq::empty()),
                    new_children@.len() == i,
                    forall|k: int|
                        0 <= k < i ==> #[trigger] is_edited_child(
                            before,
                            store.nodes@,
                            block_size,
                            old_children[k],
                            new_children@[k],
                            edits@,
                        ),
                    !changed ==> *store == start && new_children@ == old_children.take(i as int),
                    changed ==> new_children@ != old_children.take(i as int),
                decreases children@.len() - i,
            {
                let child = children[i];
                let ghost nodes_before = store.nodes@;
                let ghost new_before = new_children@;
                proof {
                    assert(old_children[i as int] == child);
                    assert(before.contains_key(child.node_id.0));
                    assert(child.range.end() <= covered.end());
                    assert(nodes_before.contains_key(child.node_id.0));
                }
                if any_edit_overlaps(edits, child.range) {
                    let child_result = match replace_tree_ranges_at(
                        store,
                        segments,
                        block_size,
                        child.node_id,
                        edits,
                    ) {
                        Ok(child_result) => child_result,
                        Err(error) => return Err(error),
                    };
                    let new_child = MetadataChild {
                        range: child.range,
                        node_id: child_result.root,
                    };
                    new_children.push(new_child);
                    changed = changed || child_result.changed;
                    proof {
                        law_trees_are_immutable(
                            before,
                            nodes_before,
                            block_size,
                            child.node_id.0,
                        );
                        assert(is_edited_child(
                            before,
                            store.nodes@,
                            block_size,
                            child,
                            new_child,
                            edits@,
                        ));
                        assert forall|k: int| 0 <= k < i implies #[trigger] is_edited_child(
                            before,
                            store.nodes@,
                            block_size,
                            old_children[k],
                            new_children@[k],
                            edits@,
                        ) by {
                            assert(new_children@[k] == new_before[k]);
                            assert(is_edited_child(
                                before,
                                nodes_before,
                                block_size,
                                old_children[k],
                                new_before[k],
                                edits@,
                            ));
                            law_trees_are_immutable(
                                nodes_before,
                                store.nodes@,
                                block_size,
                                new_before[k].node_id.0,
                            );
                        }
                        if !child_result.changed {
                            assert(new_child == child);
                        }
                        let longer = old_children.take(i + 1);
                        assert(longer =~= old_children.take(i as int).push(child));
                        if changed {
                            if new_children@ == longer {
                                assert(new_children@.take(i as int) =~= new_before);
                                assert(longer.take(i as int) =~= old_children.take(i as int));
                                assert(new_children@[i as int] == longer[i as int]);
                            }
                        } else {
                            assert(new_children@ =~= longer);
                        }
                    }
                } else {
                    new_children.push(child);
                    proof {
                        law_trees_are_immutable(
                            before,
                            nodes_before,
                            block_size,
                            child.node_id.0,
                        );
                        assert forall|block: int| child.range.contains(block) implies #[trigger]
                            block_at(store.nodes@, child.node_id.0, block) == edited(
                            edits@,
                            block,
                            block_at(before, child.node_id.0, block),
                        ) by {
                            assert(!is_edited(edits@, block));
                            lemma_edited_untouched(
                                edits@,
                                block,
                                block_at(before, child.node_id.0, block),
                            );
                        }
                        assert(is_edited_child(
                            before,
                            store.nodes@,
                            block_size,
                            child,
                            child,
                            edits@,
                        ));
                        assert forall|k: int| 0 <= k < i implies #[trigger] is_edited_child(
                            before,
                            store.nodes@,
                            block_size,
                            old_children[k],
                            new_children@[k],
                            edits@,
                        ) by {
                            assert(new_children@[k] == new_before[k]);
                            assert(is_edited_child(
                                before,
                                nodes_before,
                                block_size,
                                old_children[k],
                                new_before[k],
                                edits@,
                            ));
                        }
                        let longer = old_children.take(i + 1);
                        assert(longer =~= old_children.take(i as int).push(child));
                        if changed {
                            if new_children@ == longer {
                                assert(new_children@.take(i as int) =~= new_before);
                                assert(longer.take(i as int) =~= old_children.take(i as int));
                            }
                        } else {
                            assert(new_children@ =~= longer);
                        }
                    }
                }
                i = i + 1;
            }
            assert(old_children.take(old_children.len() as int) =~= old_children);
            if !changed {
                proof {
                    lemma_joined_children(
                        before,
                        store.nodes@,
                        store.nodes@,
                        block_size,
                        id,
                        id,
                        edits@,
                    );
                }
                return Ok(TreeEditResult { root: node_id, changed: false });
            }
            let ghost nodes_after = store.nodes@;
            let ghost joined = new_children@;
            let kind = MetadataNodeKind::Internal { children: new_children };
            proof {
                lemma_joined_children_wf(
                    before,
                    nodes_after,
                    block_size,
                    old_children,
                    joined,
                    covered,
                    id,
                    store.next_metadata_node_id,
                    edits@,
                );
            }
            match store.allocate_metadata_node(covered, kind, Ghost(block_size)) {
                Ok(root) => {
                    proof {
                        let after = store.nodes@;
                        assert forall|logs: RunLogMap| #[trigger] tree_runs_backed(
                            before,
                            logs,
                        ) implies tree_runs_backed(after, logs) by {
                            assert(runs_backed(logs, Seq::empty()));
                            assert(tree_runs_backed(nodes_after, logs));
                            assert forall|k: u128| #[trigger] after.contains_key(
                                k,
                            ) implies node_runs_backed(after[k], logs) by {
                                if k != root.0 {
                                    assert(nodes_after.contains_key(k));
                                }
                            }
                        }
                        if tree_backed(before, segments@) {
                            assert forall|k: u128| #[trigger] after.contains_key(k) implies node_backed(
                                after[k],
                                segments@,
                            ) by {
                                if k != root.0 {
                                    assert(nodes_after.contains_key(k));
                                }
                            }
                        }
                        lemma_joined_children(
                            before,
                            nodes_after,
                            after,
                            block_size,
                            id,
                            root.0,
                            edits@,
                        );
                        assert(nodes_after.contains_key(id));
                        assert(root.0 != id);
                    }
                    Ok(TreeEditResult { root, changed: true })
                },
                Err(error) => Err(error),
            }
        },
    }
}

/// Whether a new child holds what the edits make of an old one.
spec fn is_edited_child(
    before: Map<u128, MetadataNode>,
    after: Map<u128, MetadataNode>,
    block_size: u64,
    old_child: MetadataChild,
    new_child: MetadataChild,
    edits: Seq<TreeRangeEdit>,
) -> bool {
    &&& new_child.range == old_child.range
    &&& after.contains_key(new_child.node_id.0)
    &&& after[new_child.node_id.0].covered_range == new_child.range
    &&& forall|block: int|
        old_child.range.contains(block) ==> #[trigger] block_at(after, new_child.node_id.0, block)
            == edited(edits, block, block_at(before, old_child.node_id.0, block))
    &&& forall|byte: int|
        old_child.range.contains(byte / block_size as int) ==> #[trigger] run_at(
            after,
            new_child.node_id.0,
            block_size,
            byte,
        ) == if is_edited(edits, byte / block_size as int) {
            None
        } else {
            run_at(before, old_child.node_id.0, block_size, byte)
        }
}

spec fn all_edited_children(
    before: Map<u128, MetadataNode>,
    after: Map<u128, MetadataNode>,
    block_size: u64,
    old_children: Seq<MetadataChild>,
    new_children: Seq<MetadataChild>,
    edits: Seq<TreeRangeEdit>,
) -> bool {
    &&& old_children.len() == new_children.len()
    &&& forall|k: int|
        0 <= k < old_children.len() ==> #[trigger] is_edited_child(
            before,
            after,
            block_size,
            old_children[k],
            new_children[k],
            edits,
        )
}

pub proof fn lemma_same_ranges_tile(
    old_children: Seq<MetadataChild>,
    new_children: Seq<MetadataChild>,
    covered: BlockRange,
)
    requires
        children_tile(old_children, covered),
        old_children.len() == new_children.len(),
        forall|k: int|
            0 <= k < old_children.len() ==> (#[trigger] new_children[k]).range
                == old_children[k].range,
    ensures
        children_tile(new_children, covered),
{
    assert forall|i: int| 0 <= i < new_children.len() implies covered.start.0 <= (
    #[trigger] new_children[i]).range.start.0 && new_children[i].range.end() <= covered.end() by {
        assert(old_children[i].range == new_children[i].range);
    }
    assert forall|i: int, j: int| 0 <= i < j < new_children.len() implies (
    #[trigger] new_children[i]).range.end() <= (#[trigger] new_children[j]).range.start.0 by {
        assert(old_children[i].range == new_children[i].range);
        assert(old_children[j].range == new_children[j].range);
    }
    assert forall|block: int| covered.contains(block) implies #[trigger] has_child_at(
        new_children,
        block,
    ) by {
        assert(has_child_at(old_children, block));
        let i = child_index(old_children, block);
        assert(new_children[i].range.contains(block));
    }
}

proof fn lemma_joined_children_wf(
    before: Map<u128, MetadataNode>,
    after: Map<u128, MetadataNode>,
    block_size: u64,
    old_children: Seq<MetadataChild>,
    new_children: Seq<MetadataChild>,
    covered: BlockRange,
    id: u128,
    next: u128,
    edits: Seq<TreeRangeEdit>,
)
    requires
        children_wf(before, old_children, covered, id),
        all_edited_children(before, after, block_size, old_children, new_children, edits),
        forall|k: u128| #[trigger] after.contains_key(k) ==> k < next,
    ensures
        forall|node: MetadataNode| #[trigger]
            children_wf(after.insert(next, node), new_children, covered, next),
{
    assert forall|k: int| 0 <= k < old_children.len() implies (#[trigger] new_children[k]).range
        == old_children[k].range by {
        assert(is_edited_child(
            before,
            after,
            block_size,
            old_children[k],
            new_children[k],
            edits,
        ));
    }
    lemma_same_ranges_tile(old_children, new_children, covered);
    assert forall|node: MetadataNode| #[trigger] children_wf(
        after.insert(next, node),
        new_children,
        covered,
        next,
    ) by {
        let nodes = after.insert(next, node);
        assert forall|i: int| 0 <= i < new_children.len() implies nodes.contains_key(
            (#[trigger] new_children[i]).node_id.0,
        ) && new_children[i].node_id.0 < next && nodes[new_children[i].node_id.0].covered_range
            == new_children[i].range && new_children[i].range.blocks.0 > 0 by {
            assert(is_edited_child(
                before,
                after,
                block_size,
                old_children[i],
                new_children[i],
                edits,
            ));
            assert(old_children[i].range.blocks.0 > 0);
        }
    }
}

/// A node over edited children holds the edited tree.
proof fn lemma_joined_children(
    before: Map<u128, MetadataNode>,
    middle: Map<u128, MetadataNode>,
    after: Map<u128, MetadataNode>,
    block_size: u64,
    old_root: u128,
    new_root: u128,
    edits: Seq<TreeRangeEdit>,
)
    requires
        tree_wf(before, block_size),
        tree_wf(middle, block_size),
        tree_wf(after, block_size),
        keeps_nodes(middle, after),
        before.contains_key(old_root),
        after.contains_key(new_root),
        before[old_root].kind is Internal,
        after[new_root].kind is Internal,
        after[new_root].covered_range == before[old_root].covered_range,
        all_edited_children(
            before,
            middle,
            block_size,
            before[old_root].kind->Internal_children@,
            after[new_root].kind->Internal_children@,
            edits,
        ),
    ensures
        is_edited_tree(before, after, block_size, old_root, new_root, edits),
{
    let covered = before[old_root].covered_range;
    let old_children = before[old_root].kind->Internal_children@;
    let new_children = after[new_root].kind->Internal_children@;
    assert(node_wf(before, old_root, block_size));
    assert(node_wf(after, new_root, block_size));
    assert forall|block: int| covered.contains(block) implies #[trigger] block_at(
        after,
        new_root,
        block,
    ) == edited(edits, block, block_at(before, old_root, block)) by {
        assert(has_child_at(old_children, block));
        let i = child_index(old_children, block);
        assert(is_edited_child(
            before,
            middle,
            block_size,
            old_children[i],
            new_children[i],
            edits,
        ));
        lemma_child_unique(new_children, covered, i, block);
        law_trees_are_immutable(middle, after, block_size, new_children[i].node_id.0);
        assert(old_children[i].node_id.0 < old_root);
        assert(new_children[i].node_id.0 < new_root);
        assert(block_at(after, new_root, block) == block_at(
            after,
            new_children[i].node_id.0,
            block,
        ));
        assert(block_at(before, old_root, block) == block_at(
            before,
            old_children[i].node_id.0,
            block,
        ));
        assert(block_at(middle, new_children[i].node_id.0, block) == edited(
            edits,
            block,
            block_at(before, old_children[i].node_id.0, block),
        ));
    }
    assert forall|byte: int| covered.contains(byte / block_size as int) implies #[trigger] run_at(
        after,
        new_root,
        block_size,
        byte,
    ) == (if is_edited(edits, byte / block_size as int) {
        None
    } else {
        run_at(before, old_root, block_size, byte)
    }) by {
        let block = byte / block_size as int;
        assert(has_child_at(old_children, block));
        let i = child_index(old_children, block);
        assert(is_edited_child(
            before,
            middle,
            block_size,
            old_children[i],
            new_children[i],
            edits,
        ));
        lemma_child_unique(new_children, covered, i, block);
        law_trees_are_immutable(middle, after, block_size, new_children[i].node_id.0);
        assert(old_children[i].node_id.0 < old_root);
        assert(new_children[i].node_id.0 < new_root);
        assert(run_at(after, new_root, block_size, byte) == run_at(
            after,
            new_children[i].node_id.0,
            block_size,
            byte,
        ));
        assert(run_at(before, old_root, block_size, byte) == run_at(
            before,
            old_children[i].node_id.0,
            block_size,
            byte,
        ));
        assert(run_at(middle, new_children[i].node_id.0, block_size, byte) == if is_edited(
            edits,
            block,
        ) {
            None
        } else {
            run_at(before, old_children[i].node_id.0, block_size, byte)
        });
    }
}

/// Whether two lists hold the same edits.
pub open spec fn same_edits(a: Seq<TreeRangeEdit>, b: Seq<TreeRangeEdit>) -> bool {
    &&& a.len() == b.len()
    &&& forall|i: int| 0 <= i < a.len() ==> b.contains(#[trigger] a[i])
    &&& forall|i: int| 0 <= i < b.len() ==> a.contains(#[trigger] b[i])
}

/// What was held of a list is held of it after both get one more edit.
proof fn lemma_still_within(
    list: Seq<TreeRangeEdit>,
    held: Seq<TreeRangeEdit>,
    at: int,
    held_at: int,
    edit: TreeRangeEdit,
)
    requires
        0 <= at <= list.len(),
        0 <= held_at <= held.len(),
        forall|i: int| 0 <= i < list.len() ==> held.contains(#[trigger] list[i]),
    ensures
        forall|i: int|
            0 <= i < list.len() + 1 ==> held.insert(held_at, edit).contains(
                #[trigger] list.insert(at, edit)[i],
            ),
{
    let more = list.insert(at, edit);
    let more_held = held.insert(held_at, edit);
    assert forall|i: int| 0 <= i < list.len() + 1 implies more_held.contains(
        #[trigger] more[i],
    ) by {
        if i == at {
            assert(more_held[held_at] == edit);
        } else {
            let old_i = if i < at {
                i
            } else {
                i - 1
            };
            assert(more[i] == list[old_i]);
            let m = choose|m: int| 0 <= m < held.len() && held[m] == list[old_i];
            assert(more_held[if m < held_at {
                m
            } else {
                m + 1
            }] == list[old_i]);
        }
    }
}

/// What an insertion at the right place makes of sorted edits.
proof fn lemma_edit_inserted(
    edits: Seq<TreeRangeEdit>,
    i: int,
    before: Seq<TreeRangeEdit>,
    place: int,
)
    requires
        0 <= i < edits.len(),
        0 <= place <= before.len(),
        same_edits(edits.take(i), before),
    ensures
        same_edits(edits.take(i + 1), before.insert(place, edits[i])),
{
    assert(edits.take(i + 1) =~= edits.take(i).insert(i, edits[i]));
    lemma_still_within(edits.take(i), before, i, place, edits[i]);
    lemma_still_within(before, edits.take(i), place, i, edits[i]);
}

proof fn lemma_edit_in_order(before: Seq<TreeRangeEdit>, place: int, edit: TreeRangeEdit)
    requires
        0 <= place <= before.len(),
        forall|j: int, k: int|
            0 <= j < k < before.len() ==> (#[trigger] before[j]).range.start.0 <= (
            #[trigger] before[k]).range.start.0,
        forall|j: int|
            0 <= j < place ==> (#[trigger] before[j]).range.start.0 <= edit.range.start.0,
        place < before.len() ==> before[place].range.start.0 > edit.range.start.0,
    ensures
        forall|j: int, k: int|
            0 <= j < k < before.len() + 1 ==> (#[trigger] before.insert(
                place,
                edit,
            )[j]).range.start.0 <= (#[trigger] before.insert(place, edit)[k]).range.start.0,
{
    let after = before.insert(place, edit);
    assert forall|j: int, k: int| 0 <= j < k < before.len() + 1 implies (
    #[trigger] after[j]).range.start.0 <= (#[trigger] after[k]).range.start.0 by {
        let bj = if j < place {
            j
        } else {
            j - 1
        };
        let bk = if k < place {
            k
        } else {
            k - 1
        };
        if j == place {
            assert(after[k] == before[bk]);
            if bk > place {
                assert(before[place].range.start.0 <= before[bk].range.start.0);
            }
        } else if k == place {
            assert(after[j] == before[bj]);
        } else {
            assert(after[j] == before[bj] && after[k] == before[bk]);
        }
    }
}

/// The edits in ascending order of where they start.
fn sort_edits(edits: &Vec<TreeRangeEdit>) -> (sorted: Vec<TreeRangeEdit>)
    ensures
        same_edits(edits@, sorted@),
        forall|i: int, j: int|
            0 <= i < j < sorted@.len() ==> (#[trigger] sorted@[i]).range.start.0 <= (
            #[trigger] sorted@[j]).range.start.0,
{
    let mut sorted: Vec<TreeRangeEdit> = Vec::new();
    let mut i: usize = 0;
    while i < edits.len()
        invariant
            i <= edits@.len(),
            same_edits(edits@.take(i as int), sorted@),
            forall|j: int, k: int|
                0 <= j < k < sorted@.len() ==> (#[trigger] sorted@[j]).range.start.0 <= (
                #[trigger] sorted@[k]).range.start.0,
        decreases edits@.len() - i,
    {
        let edit = edits[i];
        let mut place: usize = 0;
        while place < sorted.len() && sorted[place].range.start.0 <= edit.range.start.0
            invariant
                place <= sorted@.len(),
                forall|j: int|
                    0 <= j < place ==> (#[trigger] sorted@[j]).range.start.0 <= edit.range.start.0,
            decreases sorted@.len() - place,
        {
            place = place + 1;
        }
        let ghost before = sorted@;
        sorted.insert(place, edit);
        proof {
            assert(sorted@ =~= before.insert(place as int, edit));
            lemma_edit_inserted(edits@, i as int, before, place as int);
            lemma_edit_in_order(before, place as int, edit);
        }
        i = i + 1;
    }
    assert(edits@.take(edits@.len() as int) =~= edits@);
    sorted
}

/// Whether the edits can be made in one step: none is empty, no two overlap and
/// all lie inside the tree.
pub open spec fn edits_allowed(edits: Seq<TreeRangeEdit>, covered: BlockRange) -> bool {
    &&& forall|i: int|
        0 <= i < edits.len() ==> (#[trigger] edits[i]).range.blocks.0 > 0 && edits[i].range.end()
            <= u64::MAX && covered.start.0 <= edits[i].range.start.0 && edits[i].range.end()
            <= covered.end()
    &&& forall|i: int, j: int|
        0 <= i < edits.len() && 0 <= j < edits.len() && (#[trigger] edits[i]) != (
        #[trigger] edits[j]) ==> edits[i].range.end() <= edits[j].range.start.0
            || edits[j].range.end() <= edits[i].range.start.0
    &&& edits.no_duplicates()
}

/// Whether `after` is what the edits make of a block that held `before`.
pub open spec fn edit_outcome(
    edits: Seq<TreeRangeEdit>,
    block: int,
    before: Option<crate::leaf::SegmentBlock>,
    after: Option<crate::leaf::SegmentBlock>,
) -> bool {
    &&& forall|i: int|
        0 <= i < edits.len() && (#[trigger] edits[i]).range.contains(block) ==> after
            == edits[i].value_at(block)
    &&& !is_edited(edits, block) ==> after == before
}

proof fn lemma_same_edits_outcome(
    edits: Seq<TreeRangeEdit>,
    sorted: Seq<TreeRangeEdit>,
    block: int,
    before: Option<crate::leaf::SegmentBlock>,
)
    requires
        same_edits(edits, sorted),
        edits_wf(sorted),
    ensures
        edit_outcome(edits, block, before, edited(sorted, block, before)),
        is_edited(edits, block) == is_edited(sorted, block),
{
    assert forall|i: int| 0 <= i < edits.len() && (#[trigger] edits[i]).range.contains(
        block,
    ) implies edited(sorted, block, before) == edits[i].value_at(block) by {
        assert(sorted.contains(edits[i]));
        let k = choose|k: int| 0 <= k < sorted.len() && sorted[k] == edits[i];
        lemma_edited_by(sorted, k, block, before);
    }
    if is_edited(sorted, block) {
        let k = choose|k: int|
            0 <= k < sorted.len() && (#[trigger] sorted[k]).range.contains(block);
        assert(edits.contains(sorted[k]));
        let i = choose|i: int| 0 <= i < edits.len() && edits[i] == sorted[k];
        assert(edits[i].range.contains(block));
    } else {
        lemma_edited_untouched(sorted, block, before);
    }
    if is_edited(edits, block) {
        let i = choose|i: int| 0 <= i < edits.len() && (#[trigger] edits[i]).range.contains(block);
        assert(sorted.contains(edits[i]));
        let k = choose|k: int| 0 <= k < sorted.len() && sorted[k] == edits[i];
        assert(sorted[k].range.contains(block));
    }
}

/// Puts a batch of ranges, in any order, in place of what a tree holds there.
pub fn replace_tree_ranges(
    store: &mut TreeStore,
    segments: &IdMap<SegmentRecord>,
    block_size: u64,
    root_id: MetadataNodeId,
    edits: &Vec<TreeRangeEdit>,
) -> (result: Result<TreeEditResult, StorageError>)
    requires
        old(store).wf(block_size),
        forall|i: int|
            0 <= i < edits@.len() ==> ((#[trigger] edits@[i]).replacement matches Some(replacement)
                ==> replacement.segment_base.0 <= edits@[i].range.start.0),
    ensures
        final(store).wf(block_size),
        keeps_nodes(old(store).nodes@, final(store).nodes@),
        old(store).next_metadata_node_id <= final(store).next_metadata_node_id,
        final(store).spare() == old(store).spare(),
        tree_backed(old(store).nodes@, segments@) ==> tree_backed(
            final(store).nodes@,
            segments@,
        ),
        keeps_runs_backed(old(store).nodes@, final(store).nodes@, Seq::empty()),
        result matches Ok(edit) ==> edits@.len() == 0 || old(store).nodes@.contains_key(root_id.0),
        result matches Ok(edit) ==> edit.changed == (edit.root != root_id) && (!edit.changed
            ==> *final(store) == *old(store)),
        result matches Ok(edit) ==> old(store).nodes@.contains_key(root_id.0)
            ==> final(store).nodes@.contains_key(edit.root.0)
            && final(store).nodes@[edit.root.0].covered_range == old(
            store,
        ).nodes@[root_id.0].covered_range,
        result matches Ok(edit) ==> old(store).nodes@.contains_key(root_id.0) ==> forall|
            block: int,
        |
            old(store).nodes@[root_id.0].covered_range.contains(block) ==> edit_outcome(
                edits@,
                block,
                block_at(old(store).nodes@, root_id.0, block),
                #[trigger] block_at(final(store).nodes@, edit.root.0, block),
            ),
        result matches Ok(edit) ==> old(store).nodes@.contains_key(root_id.0) ==> forall|
            byte: int,
        |
            old(store).nodes@[root_id.0].covered_range.contains(byte / block_size as int)
                ==> #[trigger] run_at(final(store).nodes@, edit.root.0, block_size, byte)
                == if is_edited(edits@, byte / block_size as int) {
                None
            } else {
                run_at(old(store).nodes@, root_id.0, block_size, byte)
            },
        edits@.len() == 0 ==> result is Ok,
        old(store).nodes@.contains_key(root_id.0) && edits_allowed(
            edits@,
            old(store).nodes@[root_id.0].covered_range,
        ) && edits_backed(edits@, segments@) && tree_backed(old(store).nodes@, segments@)
            ==> result is Ok || final(store).next_metadata_node_id == u128::MAX,
{
    if edits.len() == 0 {
        return Ok(TreeEditResult { root: root_id, changed: false });
    }
    let sorted = sort_edits(edits);
    let ghost nodes = store.nodes@;
    let ghost covered = nodes[root_id.0].covered_range;
    let covered_range = match store.nodes.get(root_id.raw()) {
        Some(root) => root.covered_range,
        None => return Err(StorageError::not_found("metadata_node", root_id.raw())),
    };
    proof {
        assert(node_wf(nodes, root_id.0, block_size));
        assert(covered.end() <= u64::MAX) by (nonlinear_arith)
            requires
                covered.end() * block_size <= u64::MAX,
                block_size >= 1,
                covered.end() >= 0,
        ;
    }
    let ghost allowed = edits_allowed(edits@, covered);
    let covered_end: u64 = covered_range.start.0 + covered_range.blocks.0;
    let mut previous_end: u64 = 0;
    let mut i: usize = 0;
    while i < sorted.len()
        invariant
            i <= sorted@.len(),
            *store == *old(store),
            nodes == store.nodes@,
            nodes.contains_key(root_id.0),
            covered == nodes[root_id.0].covered_range,
            covered_range == covered,
            covered_end == covered.end(),
            allowed == edits_allowed(edits@, covered),
            store.wf(block_size),
            same_edits(edits@, sorted@),
            forall|j: int, k: int|
                0 <= j < k < sorted@.len() ==> (#[trigger] sorted@[j]).range.start.0 <= (
                #[trigger] sorted@[k]).range.start.0,
            i == 0 ==> previous_end == 0,
            i > 0 ==> previous_end == sorted@[i - 1].range.end(),
            forall|j: int|
                0 <= j < i ==> (#[trigger] sorted@[j]).range.blocks.0 > 0 && sorted@[j].range.end()
                    <= covered.end() && covered.start.0 <= sorted@[j].range.start.0
                    && sorted@[j].range.end() <= previous_end,
            forall|j: int, k: int|
                0 <= j < k < i ==> (#[trigger] sorted@[j]).range.end() <= (
                #[trigger] sorted@[k]).range.start.0,
            forall|j: int|
                0 <= j < edits@.len() ==> ((#[trigger] edits@[j]).replacement matches Some(
                    replacement,
                ) ==> replacement.segment_base.0 <= edits@[j].range.start.0),
        decreases sorted@.len() - i,
    {
        let edit = sorted[i];
        proof {
            assert(edits@.contains(sorted@[i as int]));
        }
        if edit.range.blocks.0 == 0 {
            proof {
                let k = choose|k: int| 0 <= k < edits@.len() && edits@[k] == sorted@[i as int];
                assert(edits@[k].range.blocks.0 == 0);
            }
            return Err(StorageError::invalid_argument("tree edit range must not be empty"));
        }
        let end: u64 = match edit.range.end_exclusive() {
            Ok(end) => end.0,
            Err(error) => {
                proof {
                    let k = choose|k: int| 0 <= k < edits@.len() && edits@[k] == sorted@[i as int];
                    assert(edits@[k].range.end() > u64::MAX);
                }
                return Err(error);
            },
        };
        if i > 0 && edit.range.start.0 < previous_end {
            proof {
                let (a, b) = (sorted@[i - 1], sorted@[i as int]);
                assert(edits@.contains(a));
                let ka = choose|k: int| 0 <= k < edits@.len() && edits@[k] == a;
                let kb = choose|k: int| 0 <= k < edits@.len() && edits@[k] == b;
                assert(edits@[ka] == a && edits@[kb] == b);
                if allowed {
                    if a == b {
                        lemma_duplicate(edits@, sorted@, i - 1, i as int);
                    }
                    assert(a.range.start.0 <= b.range.start.0);
                }
            }
            return Err(StorageError::invalid_argument("batched tree edits must not overlap"));
        }
        if edit.range.start.0 < covered_range.start.0 || end > covered_end {
            proof {
                let k = choose|k: int| 0 <= k < edits@.len() && edits@[k] == sorted@[i as int];
                assert(edits@[k] == edit);
            }
            return Err(
                StorageError::invalid_argument("edit range is outside metadata tree coverage"),
            );
        }
        previous_end = end;
        i = i + 1;
    }
    proof {
        assert forall|j: int| 0 <= j < sorted@.len() implies (#[trigger] sorted@[j]).wf() by {
            assert(edits@.contains(sorted@[j]));
            let k = choose|k: int| 0 <= k < edits@.len() && edits@[k] == sorted@[j];
            assert(edits@[k] == sorted@[j]);
        }
        assert(edits_wf(sorted@));
        if edits_backed(edits@, segments@) {
            assert forall|j: int| 0 <= j < sorted@.len() implies (#[trigger] sorted@[j]).backed(
                segments@,
            ) by {
                assert(edits@.contains(sorted@[j]));
                let k = choose|k: int| 0 <= k < edits@.len() && edits@[k] == sorted@[j];
                assert(edits@[k].backed(segments@));
            }
        }
    }
    let result = replace_tree_ranges_at(store, segments, block_size, root_id, &sorted);
    proof {
        if let Ok(edit) = result {
            assert forall|block: int| covered.contains(block) implies edit_outcome(
                edits@,
                block,
                block_at(nodes, root_id.0, block),
                #[trigger] block_at(store.nodes@, edit.root.0, block),
            ) by {
                lemma_same_edits_outcome(
                    edits@,
                    sorted@,
                    block,
                    block_at(nodes, root_id.0, block),
                );
            }
            assert forall|byte: int| covered.contains(byte / block_size as int) implies #[trigger]
                run_at(store.nodes@, edit.root.0, block_size, byte) == (if is_edited(
                edits@,
                byte / block_size as int,
            ) {
                None
            } else {
                run_at(nodes, root_id.0, block_size, byte)
            }) by {
                lemma_same_edits_outcome(edits@, sorted@, byte / block_size as int, None);
            }
        }
    }
    result
}

/// A list that holds one edit twice was made from one that does, too.
proof fn lemma_duplicate(edits: Seq<TreeRangeEdit>, sorted: Seq<TreeRangeEdit>, i: int, j: int)
    requires
        same_edits(edits, sorted),
        0 <= i < j < sorted.len(),
        sorted[i] == sorted[j],
    ensures
        !edits.no_duplicates(),
{
    if edits.no_duplicates() {
        edits.unique_seq_to_set();
        let all = edits.to_set();
        let rest = sorted.remove(j);
        assert(all.subset_of(rest.to_set())) by {
            assert forall|e: TreeRangeEdit| all.contains(e) implies rest.to_set().contains(e) by {
                let k = choose|k: int| 0 <= k < edits.len() && edits[k] == e;
                assert(sorted.contains(edits[k]));
                let m = choose|m: int| 0 <= m < sorted.len() && sorted[m] == e;
                if m < j {
                    assert(rest[m] == e);
                } else if m > j {
                    assert(rest[m - 1] == e);
                } else {
                    assert(rest[i] == e);
                }
            }
        }
        vstd::set_lib::lemma_len_subset(all, rest.to_set());
        rest.lemma_cardinality_of_set();
    }
}

} // verus!
