//! Replaying what a block commit left behind, and publishing segments that a
//! writer stored under a grant.
use vstd::prelude::*;

use crate::block_commit::{delta_edit, delta_edits, publish_counted, receipts_usable};
use crate::coordinator::{LocalCoordinator, whole_blocks};
use crate::delta_records::{BlockDeltaCommit, BlockDeltaEntry, BlockDeltaReplacement};
use crate::device_trees::{bases_wf, device_block_at, edits_apart, edits_in_shards, shards_wf};
use crate::error::StorageError;
use crate::id::{BlockIndex, CommitSeq, DeviceId, MetadataNodeId};
use crate::metadata::MetadataInner;
use crate::metadata_records::MetadataNode;
use crate::segment_records::{SegmentLifecycleState, SegmentWriteReceipt};
use crate::stored::{named_by, segments_referred};
use crate::tree::{SegmentReplacement, TreeRangeEdit, TreeStore, edits_backed, is_edited};

verus! {

/// Replaying a commit's delta on the blocks that the commit started from gives
/// the blocks that the commit left.
pub proof fn law_delta_replay_gives_the_same_blocks(
    before: LocalCoordinator,
    committed: LocalCoordinator,
    restored: LocalCoordinator,
    replayed: LocalCoordinator,
    device_id: DeviceId,
    edits: Seq<TreeRangeEdit>,
    block: int,
)
    requires
        0 <= block < before.metadata.blocks_of(device_id),
        before.metadata.blocks_of(device_id) == restored.metadata.blocks_of(device_id),
        device_block_at(before.nodes(), before.metadata.roots_of(device_id), block)
            == device_block_at(restored.nodes(), restored.metadata.roots_of(device_id), block),
        committed.device_edited(&before, device_id, edits),
        replayed.device_edited(&restored, device_id, edits),
    ensures
        device_block_at(replayed.nodes(), replayed.metadata.roots_of(device_id), block)
            == device_block_at(committed.nodes(), committed.metadata.roots_of(device_id), block),
{
    let a = device_block_at(committed.nodes(), committed.metadata.roots_of(device_id), block);
    let b = device_block_at(replayed.nodes(), replayed.metadata.roots_of(device_id), block);
    if is_edited(edits, block) {
        let i = choose|i: int| 0 <= i < edits.len() && (#[trigger] edits[i]).range.contains(block);
        assert(a == edits[i].value_at(block));
        assert(b == edits[i].value_at(block));
    }
}

impl MetadataInner {
    /// Makes the next commit take a given sequence number.
    pub fn set_next_commit_seq_for_replay(&mut self, commit_seq: CommitSeq) -> (result: Result<
        (),
        StorageError,
    >)
        ensures
            result is Ok <==> old(self).next_commit_seq <= commit_seq.0,
            *final(self) == (MetadataInner {
                next_commit_seq: final(self).next_commit_seq,
                ..*old(self)
            }),
            result is Ok ==> final(self).next_commit_seq == commit_seq.0,
            result matches Err(error) ==> *final(self) == *old(self) && error is Corrupt,
    {
        if commit_seq.0 < self.next_commit_seq {
            return Err(StorageError::corrupt("replayed commit sequence is already used"));
        }
        self.next_commit_seq = commit_seq.0;
        Ok(())
    }
}

/// Whether delta entries fit a device's shards.
pub open spec fn entries_fit(
    nodes: Map<u128, MetadataNode>,
    roots: Seq<MetadataNodeId>,
    entries: Seq<BlockDeltaEntry>,
) -> bool {
    &&& forall|i: int|
        0 <= i < entries.len() ==> entry_fits(nodes, roots, #[trigger] entries[i])
    &&& forall|i: int, j: int|
        0 <= i < j < entries.len() ==> (#[trigger] entries[i]).range.end() <= (
        #[trigger] entries[j]).range.start.0 || entries[j].range.end() <= entries[i].range.start.0
}

pub open spec fn entry_fits(
    nodes: Map<u128, MetadataNode>,
    roots: Seq<MetadataNodeId>,
    entry: BlockDeltaEntry,
) -> bool {
    &&& entry.range.blocks.0 > 0
    &&& entry.range.end() <= u64::MAX
    &&& entry.shard_id.0 < roots.len()
    &&& nodes[roots[entry.shard_id.0 as int].0].covered_range.start.0 <= entry.range.start.0
    &&& entry.range.end() <= nodes[roots[entry.shard_id.0 as int].0].covered_range.end()
    &&& (entry.replacement matches BlockDeltaReplacement::Segment { segment_offset, .. }
        ==> segment_offset.0 <= entry.range.start.0)
}

fn check_entry(
    store: &TreeStore,
    roots: &Vec<MetadataNodeId>,
    entry: BlockDeltaEntry,
    block_size: u64,
    blocks: Ghost<int>,
) -> (result: Result<TreeRangeEdit, StorageError>)
    requires
        store.wf(block_size),
        shards_wf(store.nodes@, roots@, blocks@),
    ensures
        result is Ok <==> entry_fits(store.nodes@, roots@, entry),
        result matches Ok(edit) ==> edit == delta_edit(entry),
        result matches Err(error) ==> error is Corrupt || error is InvalidArgument,
{
    if entry.range.blocks.0 == 0 {
        return Err(StorageError::invalid_argument("tree edit range must not be empty"));
    }
    if entry.range.blocks.0 > u64::MAX - entry.range.start.0 {
        return Err(StorageError::invalid_argument("block range end overflows"));
    }
    let shard: usize = entry.shard_id.0 as usize;
    if shard >= roots.len() {
        return Err(StorageError::corrupt("block delta shard is outside device"));
    }
    let root = roots[shard];
    assert(store.nodes@.contains_key(root.0));
    assert(crate::tree::node_wf(store.nodes@, root.0, block_size));
    let covered = match store.nodes.get(root.raw()) {
        Some(node) => node.covered_range,
        None => return Err(StorageError::corrupt("block delta shard has no tree")),
    };
    proof {
        assert(covered.end() <= u64::MAX) by (nonlinear_arith)
            requires
                covered.end() * block_size <= u64::MAX,
                block_size >= 1,
                covered.end() >= 0,
        ;
    }
    let end: u64 = entry.range.start.0 + entry.range.blocks.0;
    let covered_end: u64 = covered.start.0 + covered.blocks.0;
    if entry.range.start.0 < covered.start.0 || end > covered_end {
        return Err(StorageError::invalid_argument("tree edit is outside the tree"));
    }
    let replacement = match entry.replacement {
        BlockDeltaReplacement::Segment { segment_id, segment_offset } => {
            if segment_offset.0 > entry.range.start.0 {
                return Err(
                    StorageError::corrupt("block delta segment offset exceeds logical start"),
                );
            }
            Some(
                SegmentReplacement {
                    segment_id,
                    segment_base: BlockIndex(entry.range.start.0 - segment_offset.0),
                },
            )
        },
        BlockDeltaReplacement::Sparse => None,
    };
    Ok(TreeRangeEdit { range: entry.range, replacement })
}

/// The tree edits of delta entries, if they fit the device.
fn check_entries(
    store: &TreeStore,
    roots: &Vec<MetadataNodeId>,
    entries: &Vec<BlockDeltaEntry>,
    block_size: u64,
    blocks: Ghost<int>,
) -> (result: Result<Vec<TreeRangeEdit>, StorageError>)
    requires
        store.wf(block_size),
        shards_wf(store.nodes@, roots@, blocks@),
    ensures
        result is Ok <==> entries_fit(store.nodes@, roots@, entries@),
        result matches Ok(edits) ==> edits@ == delta_edits(entries@),
        result matches Err(error) ==> error is Corrupt || error is InvalidArgument,
{
    let mut edits: Vec<TreeRangeEdit> = Vec::new();
    let mut i: usize = 0;
    while i < entries.len()
        invariant
            i <= entries@.len(),
            store.wf(block_size),
            shards_wf(store.nodes@, roots@, blocks@),
            edits@.len() == i,
            forall|k: int| 0 <= k < i ==> #[trigger] edits@[k] == delta_edit(entries@[k]),
            forall|k: int| 0 <= k < i ==> entry_fits(store.nodes@, roots@, #[trigger] entries@[k]),
            forall|k: int, j: int|
                0 <= k < j < i ==> (#[trigger] entries@[k]).range.end() <= (
                #[trigger] entries@[j]).range.start.0 || entries@[j].range.end()
                    <= entries@[k].range.start.0,
        decreases entries@.len() - i,
    {
        let entry = entries[i];
        assert(entries@[i as int] == entry);
        let edit = match check_entry(store, roots, entry, block_size, blocks) {
            Ok(edit) => edit,
            Err(error) => return Err(error),
        };
        let end: u64 = entry.range.start.0 + entry.range.blocks.0;
        let mut k: usize = 0;
        while k < i
            invariant
                k <= i < entries@.len(),
                entry == entries@[i as int],
                end == entry.range.end(),
                forall|m: int|
                    0 <= m < i ==> entry_fits(store.nodes@, roots@, #[trigger] entries@[m]),
                forall|m: int|
                    0 <= m < k ==> (#[trigger] entries@[m]).range.end() <= entry.range.start.0
                        || entry.range.end() <= entries@[m].range.start.0,
            decreases i - k,
        {
            let other = entries[k];
            assert(entries@[k as int] == other);
            assert(entry_fits(store.nodes@, roots@, entries@[k as int]));
            let other_end: u64 = other.range.start.0 + other.range.blocks.0;
            if other_end > entry.range.start.0 && end > other.range.start.0 {
                assert(entries@[i as int] == entry);
                return Err(StorageError::invalid_argument("batched tree edits must not overlap"));
            }
            k = k + 1;
        }
        edits.push(edit);
        i = i + 1;
    }
    assert(edits@ =~= delta_edits(entries@));
    Ok(edits)
}

proof fn lemma_entries_edits(
    nodes: Map<u128, MetadataNode>,
    roots: Seq<MetadataNodeId>,
    entries: Seq<BlockDeltaEntry>,
)
    requires
        entries_fit(nodes, roots, entries),
    ensures
        edits_apart(delta_edits(entries)),
        bases_wf(delta_edits(entries)),
        edits_in_shards(nodes, roots, delta_edits(entries)),
{
    let edits = delta_edits(entries);
    assert forall|i: int| 0 <= i < edits.len() implies #[trigger] edits[i] == delta_edit(entries[i])
        && entry_fits(nodes, roots, entries[i]) by {}
    assert forall|i: int, j: int| 0 <= i < j < edits.len() implies (#[trigger] edits[i]).range.end()
        <= (#[trigger] edits[j]).range.start.0 || edits[j].range.end()
        <= edits[i].range.start.0 by {
        assert(edits[i] == delta_edit(entries[i]) && edits[j] == delta_edit(entries[j]));
        assert(entries[i].range.end() <= entries[j].range.start.0 || entries[j].range.end()
            <= entries[i].range.start.0);
    }
    assert forall|i: int| 0 <= i < edits.len() implies exists|s: int|
        0 <= s < roots.len() && nodes[(#[trigger] roots[s]).0].covered_range.start.0 <= (
        #[trigger] edits[i]).range.start.0 && edits[i].range.end()
            <= nodes[roots[s].0].covered_range.end() by {
        assert(entry_fits(nodes, roots, entries[i]));
        let s = entries[i].shard_id.0 as int;
        assert(nodes[roots[s].0].covered_range.start.0 <= edits[i].range.start.0);
    }
}

/// Whether an entry refers to a segment, if to any, that may be referred to.
pub open spec fn entry_usable(
    segments: Map<u128, crate::storage_nodes::SegmentRecord>,
    entry: BlockDeltaEntry,
) -> bool {
    entry.replacement matches BlockDeltaReplacement::Segment { segment_id, .. } ==> {
        &&& segments.contains_key(segment_id.0)
        &&& segments[segment_id.0].entry.receipt is Some
        &&& segments[segment_id.0].entry.state == SegmentLifecycleState::DurablePendingMetadata
            || segments[segment_id.0].entry.state == SegmentLifecycleState::Referenced
    }
}

pub open spec fn entries_usable(
    segments: Map<u128, crate::storage_nodes::SegmentRecord>,
    entries: Seq<BlockDeltaEntry>,
) -> bool {
    forall|i: int| 0 <= i < entries.len() ==> entry_usable(segments, #[trigger] entries[i])
}

/// Whether a delta entry refers to a segment.
pub open spec fn entry_names(entry: BlockDeltaEntry, id: u128) -> bool {
    entry.replacement matches BlockDeltaReplacement::Segment { segment_id, .. } && segment_id.0
        == id
}

/// Whether some delta entry refers to a segment.
pub open spec fn entries_name(entries: Seq<BlockDeltaEntry>, id: u128) -> bool {
    exists|i: int| 0 <= i < entries.len() && entry_names(#[trigger] entries[i], id)
}

/// The segments that delta entries refer to.
pub open spec fn entry_segments(entries: Seq<BlockDeltaEntry>) -> Set<u128> {
    Set::new(|id: u128| entries_name(entries, id))
}

/// One more entry, and its receipt if it refers to a segment.
proof fn lemma_names_more(
    entries: Seq<BlockDeltaEntry>,
    before: Seq<SegmentWriteReceipt>,
    after: Seq<SegmentWriteReceipt>,
    count: int,
)
    requires
        0 <= count < entries.len(),
        forall|id: u128| #[trigger]
            named_by(before, id) == entries_name(entries.take(count), id),
        match entries[count].replacement {
            BlockDeltaReplacement::Segment { segment_id, .. } => after.len() == before.len() + 1
                && after.drop_last() == before && after.last().segment_id == segment_id,
            BlockDeltaReplacement::Sparse => after == before,
        },
    ensures
        forall|id: u128| #[trigger]
            named_by(after, id) == entries_name(entries.take(count + 1), id),
{
    let (fewer, more) = (entries.take(count), entries.take(count + 1));
    assert forall|id: u128| #[trigger] named_by(after, id) == entries_name(more, id) by {
        assert(named_by(before, id) == entries_name(fewer, id));
        if named_by(before, id) {
            let k = choose|k: int|
                0 <= k < before.len() && (#[trigger] before[k]).segment_id.0 == id;
            assert(after[k] == before[k]);
            assert(named_by(after, id));
        }
        if entries_name(fewer, id) {
            let k = choose|k: int| 0 <= k < fewer.len() && entry_names(#[trigger] fewer[k], id);
            assert(entry_names(more[k], id));
        }
        if entry_names(entries[count], id) {
            assert(entry_names(more[count], id));
            assert(after[after.len() - 1].segment_id.0 == id);
        } else {
            if entries_name(more, id) {
                let k = choose|k: int| 0 <= k < more.len() && entry_names(#[trigger] more[k], id);
                assert(entry_names(fewer[k], id));
            }
            if named_by(after, id) {
                let k = choose|k: int|
                    0 <= k < after.len() && (#[trigger] after[k]).segment_id.0 == id;
                if k < before.len() {
                    assert(before[k].segment_id.0 == id);
                }
            }
        }
    }
}

impl LocalCoordinator {
    /// The receipts of the segments that delta entries refer to.
    fn receipts_for_entries(&self, entries: &Vec<BlockDeltaEntry>) -> (result: Result<
        Vec<SegmentWriteReceipt>,
        StorageError,
    >)
        requires
            self.wf(),
        ensures
            result is Ok <==> forall|i: int|
                0 <= i < entries@.len() ==> ((
                #[trigger] entries@[i]).replacement matches BlockDeltaReplacement::Segment {
                    segment_id,
                    ..
                } ==> self.segments().contains_key(segment_id.0)
                    && self.segments()[segment_id.0].entry.receipt is Some),
            result matches Ok(receipts) ==> forall|i: int|
                0 <= i < receipts@.len() ==> self.segments().contains_key(
                    (#[trigger] receipts@[i]).segment_id.0,
                ) && self.segments()[receipts@[i].segment_id.0].entry.receipt == Some(receipts@[i]),
            result matches Ok(receipts) ==> entries_usable(self.segments(), entries@)
                ==> receipts_usable(self.segments(), receipts@),
            result matches Ok(receipts) ==> forall|id: u128| #[trigger]
                named_by(receipts@, id) == entries_name(entries@, id),
            result matches Err(error) ==> error is NotFound,
    {
        let mut receipts: Vec<SegmentWriteReceipt> = Vec::new();
        let mut i: usize = 0;
        proof {
            assert forall|id: u128| #[trigger]
                named_by(receipts@, id) == entries_name(entries@.take(0), id) by {}
        }
        while i < entries.len()
            invariant
                i <= entries@.len(),
                self.wf(),
                forall|k: int|
                    0 <= k < i ==> ((
                    #[trigger] entries@[k]).replacement matches BlockDeltaReplacement::Segment {
                        segment_id,
                        ..
                    } ==> self.segments().contains_key(segment_id.0)
                        && self.segments()[segment_id.0].entry.receipt is Some),
                forall|k: int|
                    0 <= k < receipts@.len() ==> self.segments().contains_key(
                        (#[trigger] receipts@[k]).segment_id.0,
                    ) && self.segments()[receipts@[k].segment_id.0].entry.receipt == Some(
                        receipts@[k],
                    ),
                entries_usable(self.segments(), entries@) ==> receipts_usable(
                    self.segments(),
                    receipts@,
                ),
                forall|id: u128| #[trigger]
                    named_by(receipts@, id) == entries_name(entries@.take(i as int), id),
            decreases entries@.len() - i,
        {
            let entry = entries[i];
            let ghost receipts_before = receipts@;
            assert(entries@[i as int] == entry);
            match entry.replacement {
                BlockDeltaReplacement::Segment { segment_id, .. } => {
                    match self.storage_nodes.receipt_for_segment(segment_id) {
                        Ok(receipt) => {
                            proof {
                                assert(self.segments().contains_key(segment_id.0));
                                assert(crate::storage_nodes::record_wf(
                                    self.segments()[segment_id.0],
                                    segment_id.0,
                                    self.block_size(),
                                ));
                            }
                            assert(entries_usable(self.segments(), entries@) ==> entry_usable(
                                self.segments(),
                                entries@[i as int],
                            ));
                            receipts.push(receipt);
                        },
                        Err(error) => return Err(error),
                    }
                },
                BlockDeltaReplacement::Sparse => {},
            }
            proof {
                if entry.replacement is Segment {
                    assert(receipts@.drop_last() =~= receipts_before);
                }
                lemma_names_more(entries@, receipts_before, receipts@, i as int);
            }
            i = i + 1;
        }
        assert(entries@.take(i as int) =~= entries@);
        Ok(receipts)
    }

    /// Makes a device's commit again from the delta that it left.
    #[verifier::rlimit(60)]
    pub fn replay_block_delta_commit(&mut self, commit: &BlockDeltaCommit) -> (result: Result<
        (),
        StorageError,
    >)
        requires
            old(self).wf(),
        ensures
            final(self).only_device_changed(old(self), commit.device_id),
            result is Ok ==> commit.entries@.len() > 0 && old(self).metadata.has_device(
                commit.device_id,
            ) && old(self).metadata.next_commit_seq <= commit.commit_seq.0 && entries_fit(
                old(self).nodes(),
                old(self).metadata.roots_of(commit.device_id),
                commit.entries@,
            ),
            result is Ok ==> final(self).device_edited(
                old(self),
                commit.device_id,
                delta_edits(commit.entries@),
            ),
            result is Ok ==> (final(self).metadata.device_heads == old(self).metadata.device_heads)
                || (final(self).metadata.device_heads@[commit.device_id.0].latest_commit
                == commit.commit_seq && final(self).metadata.next_commit_seq
                == commit.commit_seq.0 + 1 && segments_referred(
                old(self).segments(),
                final(self).segments(),
                entry_segments(commit.entries@),
            )),
            result is Ok && final(self).metadata.device_heads == old(self).metadata.device_heads
                ==> final(self).storage_nodes == old(self).storage_nodes,
            result is Ok ==> final(self).observability.counters == publish_counted(
                old(self).observability.counters,
                false,
                final(self).metadata.device_heads != old(self).metadata.device_heads,
            ),
            commit.entries@.len() > 0 && old(self).metadata.has_device(commit.device_id) && old(
                self,
            ).metadata.next_commit_seq <= commit.commit_seq.0 && entries_fit(
                old(self).nodes(),
                old(self).metadata.roots_of(commit.device_id),
                commit.entries@,
            ) && entries_usable(old(self).segments(), commit.entries@) && edits_backed(
                delta_edits(commit.entries@),
                old(self).segments(),
            ) && old(self).room_for(0) && commit.commit_seq.0 + 1 < u64::MAX ==> result is Ok,
            commit.entries@.len() == 0 ==> result == Err::<(), StorageError>(
                StorageError::Corrupt { message: "block delta commit has no entries" },
            ) && *final(self) == *old(self),
    {
        let ghost before = *self;
        let bs: u64 = self.config.block_size as u64;
        let device_id = commit.device_id;
        if commit.entries.len() == 0 {
            return Err(StorageError::corrupt("block delta commit has no entries"));
        }
        let (roots, generation) = match self.metadata.device_heads.get(device_id.raw()) {
            Some(head) => (crate::tree::copy_vec(&head.shard_roots), head.generation),
            None => return Err(StorageError::not_found("device", device_id.raw())),
        };
        assert(self.metadata.device_heads@.contains_key(device_id.0));
        match self.metadata.set_next_commit_seq_for_replay(commit.commit_seq) {
            Ok(()) => {},
            Err(error) => return Err(error),
        }
        let ghost blocks = before.metadata.blocks_of(device_id);
        let receipts = match self.receipts_for_entries(&commit.entries) {
            Ok(receipts) => receipts,
            Err(error) => return Err(error),
        };
        let edits = match check_entries(
            &self.metadata.trees,
            &roots,
            &commit.entries,
            bs,
            Ghost(blocks),
        ) {
            Ok(edits) => edits,
            Err(error) => return Err(error),
        };
        proof {
            lemma_entries_edits(before.nodes(), roots@, commit.entries@);
        }
        let ghost middle = *self;
        let published = self.publish_device_edits(device_id, generation, &edits, false);
        proof {
            assert forall|other: DeviceId| other != device_id implies #[trigger] self.device_kept(
                &before,
                other,
            ) by {
                assert(self.device_kept(&middle, other));
            }
        }
        let ghost published_state = *self;
        match published {
            Ok(Some(seq)) => {
                if seq.0 != commit.commit_seq.0 {
                    return Err(
                        StorageError::corrupt(
                            "block delta replay produced unexpected commit sequence",
                        ),
                    );
                }
                let marked = self.mark_receipts_referenced(&receipts, seq);
                proof {
                    assert forall|other: DeviceId| other != device_id implies #[trigger]
                        self.device_kept(&before, other) by {
                        assert(published_state.device_kept(&before, other));
                    }
                    assert forall|id: u128| whole_blocks(before.segments(), bs)
                        && #[trigger] self.segments().contains_key(id) implies
                        self.segments()[id].bytes@.len() as int % bs as int == 0 by {
                        assert(before.segments().contains_key(id));
                    }
                }
                marked
            },
            Ok(None) => Ok(()),
            Err(error) => Err(error),
        }
    }
}

} // verus!
