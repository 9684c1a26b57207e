//! What a commit does besides its bytes: it ends the streams of its file, moves the
//! file on, and takes its segments into use.
use vstd::prelude::*;

use crate::config::LocalStoreConfig;
use crate::direct_io::{aligned_up, law_alignments_are_powers_of_two};
use crate::file_publish::fenced;
use crate::id::{CommitSeq, FileId, KeyspaceId, MetadataNodeId, WriterEpoch};
use crate::journal_overlay::{later_commit, later_epoch};
use crate::metadata::{LiveAppendStream, MetadataInner};
use crate::metadata_records::FileHead;
use crate::metadata_streams::token_open;
use crate::native_api::AppendStream;
use crate::persist_state::later;
use crate::segment_records::{SegmentLifecycleState, SegmentWriteReceipt};
use crate::storage_nodes::SegmentRecord;
use crate::stored::{named_by, segments_marked};

verus! {

/// A commit of a file ends each stream that was writing to it: its token opens it no
/// more, though what it has taken in stays. Streams of other files stay open.
pub proof fn law_commit_ends_the_streams_of_its_file(
    before: Map<u128, LiveAppendStream>,
    after: Map<u128, LiveAppendStream>,
    keyspace_id: KeyspaceId,
    file_id: FileId,
    token: AppendStream,
)
    requires
        after == before.map_values(
            |stream: LiveAppendStream| fenced(stream, keyspace_id, file_id),
        ),
        token_open(before, token),
    ensures
        token_open(after, token) <==> token.keyspace_id != keyspace_id || token.file_id != file_id,
        after.contains_key(token.stream_id.0),
        after[token.stream_id.0].state.records == before[token.stream_id.0].state.records,
        after[token.stream_id.0].accepted_tail == before[token.stream_id.0].accepted_tail,
        token.keyspace_id != keyspace_id || token.file_id != file_id
            ==> after[token.stream_id.0] == before[token.stream_id.0],
{
}

/// A publish gives a file the root and the size that it was told, the next version,
/// and the commit that is next.
pub proof fn law_publish_moves_a_file_on(
    metadata: MetadataInner,
    head: FileHead,
    new_root: MetadataNodeId,
    new_size: u64,
)
    requires
        head.version.0 < u64::MAX,
    ensures
        metadata.published_head(head, new_root, new_size).file_id == head.file_id,
        metadata.published_head(head, new_root, new_size).root == new_root,
        metadata.published_head(head, new_root, new_size).size == new_size,
        metadata.published_head(head, new_root, new_size).version.0 > head.version.0,
        metadata.published_head(head, new_root, new_size).version.0 - head.version.0 == 1,
        metadata.published_head(head, new_root, new_size).latest_commit.0
            == metadata.next_commit_seq,
{
}

/// A commit takes the segments of its receipts into use, with the bytes that they
/// have, and leaves all other segments as they were.
pub proof fn law_commit_takes_its_segments_into_use(
    before: Map<u128, SegmentRecord>,
    after: Map<u128, SegmentRecord>,
    receipts: Seq<SegmentWriteReceipt>,
    id: u128,
)
    requires
        segments_marked(before, after, receipts),
        before.contains_key(id),
    ensures
        after.contains_key(id),
        after[id].bytes == before[id].bytes,
        after[id].storage_node == before[id].storage_node,
        after[id].entry.receipt == before[id].entry.receipt,
        forall|k: int|
            0 <= k < receipts.len() && (#[trigger] receipts[k]).segment_id.0 == id
                ==> after[id].entry.state == SegmentLifecycleState::Referenced,
        (forall|k: int|
            0 <= k < receipts.len() ==> (#[trigger] receipts[k]).segment_id.0 != id) ==> after[id]
            == before[id],
{
    if exists|k: int| 0 <= k < receipts.len() && (#[trigger] receipts[k]).segment_id.0 == id {
        assert(named_by(receipts, id));
    } else {
        assert(!named_by(receipts, id));
    }
}

/// Of two epochs, or two commits, the one that counts is one of them, and neither is
/// past it.
pub proof fn law_later_is_neither_passed(
    epoch: WriterEpoch,
    other_epoch: WriterEpoch,
    commit: CommitSeq,
    other_commit: CommitSeq,
)
    ensures
        later_epoch(epoch, other_epoch) == epoch || later_epoch(epoch, other_epoch) == other_epoch,
        later_epoch(epoch, other_epoch).0 >= epoch.0,
        later_epoch(epoch, other_epoch).0 >= other_epoch.0,
        later_commit(commit, other_commit) == commit || later_commit(commit, other_commit)
            == other_commit,
        later_commit(commit, other_commit).0 >= commit.0,
        later_commit(commit, other_commit).0 >= other_commit.0,
        later(commit, other_commit) == commit || later(commit, other_commit) == other_commit,
        later(commit, other_commit).0 >= commit.0,
        later(commit, other_commit).0 >= other_commit.0,
{
}

/// A configuration that passes lets every part of a store work: there is a shard, a
/// block size that is a power of two, room in trees, leaves and the event log, and a
/// stream is not persisted after nothing; any such configuration passes.
pub proof fn law_valid_config_has_room(config: LocalStoreConfig)
    ensures
        config.valid() <==> {
            &&& config.shard_count >= 1
            &&& exists|exponent: nat|
                config.block_size == #[trigger] vstd::arithmetic::power2::pow2(exponent)
            &&& config.file_root_blocks >= 1
            &&& config.metadata_fanout >= 2
            &&& config.metadata_leaf_blocks >= 1
            &&& config.observability_event_capacity >= 1
            &&& config.stream_auto_persist_bytes matches Some(bytes) ==> bytes >= 1
        },
{
    law_alignments_are_powers_of_two(config.block_size as nat);
}

/// A length that is rounded up to whole units is a number of whole units, not less
/// than the length, and less than one unit more.
pub proof fn law_rounding_up_takes_whole_units(len: int, alignment: int)
    requires
        len >= 0,
        alignment > 0,
    ensures
        aligned_up(len, alignment) % alignment == 0,
        len <= aligned_up(len, alignment) < len + alignment,
{
    let units = (len + alignment - 1) / alignment;
    vstd::arithmetic::div_mod::lemma_mod_multiples_basic(units, alignment);
    assert(len <= units * alignment < len + alignment) by (nonlinear_arith)
        requires
            units == (len + alignment - 1) / alignment,
            alignment > 0,
    ;
}

} // verus!
