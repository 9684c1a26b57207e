//! What holds of several requests together: what a read gives back, what a
//! write leaves alone, and what can be brought back.
use vstd::prelude::*;

use crate::backing::{
    block_stored, lemma_block_stored, lemma_device_block_stored, lemma_stored_byte_kept,
    lemma_tree_byte_kept, lemma_whole_block_inside,
};
use crate::batch::file_batch_at;
use crate::block_api::{
    BlockRange, ByteRange, PayloadIntegrity, ReadVerification, RestorePoint, WriteDurability,
};
use crate::block_read::{checked_ids, device_checked, device_reaches};
use crate::coordinator::{BlockWriterLease, LocalCoordinator, lemma_block_of_byte, whole_blocks};
use crate::data_log::PendingDataLogAppend;
use crate::delta_records::BlockDeltaCommit;
use crate::device_trees::{device_block_at, lemma_device_frame};
use crate::durable::DurableCoordinator;
use crate::durable_state::DurableStoreState;
use crate::file_commit::{byte_applied, file_batch_beyond};
use crate::grants::WriteGrant;
use crate::id::{CheckpointId, CommitSeq, DeviceId, FileId, KeyspaceId, LogicalTime};
use crate::leaf::SegmentBlock;
use crate::maintenance::{MaintenancePolicy, MaintenanceProgress};
use crate::metadata::{MetadataInner, catalog_roots_wf, catalog_shard_wf, file_wf, head_wf};
use crate::metadata_files::{catalog_head, catalog_index};
use crate::native_api::{AppendStream, AppendTicket, FileBatchWrite};
use crate::persist_state::{after_durable, later};
use crate::read_plan::{segment_reaches, tree_reaches, tree_within};
use crate::segment_records::{SegmentLifecycleState, SegmentWriteReceipt, WriteGrantIntent};
use crate::storage_nodes::{StorageNodeRegistry, record_wf};
use crate::stored::stored_as;
use crate::tree::{block_at, run_at};

verus! {

/// A read of what a write put on a device gives back the bytes of the write.
pub proof fn law_read_gives_back_write(
    before: LocalCoordinator,
    after: LocalCoordinator,
    device_id: DeviceId,
    offset: u64,
    data: Seq<u8>,
    read: Seq<u8>,
)
    requires
        before.wf(),
        before.metadata.has_device(device_id),
        data.len() <= u64::MAX,
        (ByteRange { offset, len: data.len() as u64 }).fits_device(
            before.metadata.device_specs@[device_id.0],
        ),
        after.write_applied(&before, device_id, offset, data),
        read.len() == data.len(),
        forall|i: int|
            0 <= i < read.len() ==> #[trigger] read[i] == after.device_byte(device_id, offset + i),
    ensures
        read == data,
{
    assert(before.metadata.device_heads@.contains_key(device_id.0));
    assert(head_wf(
        before.nodes(),
        before.metadata.device_specs@,
        before.metadata.device_heads@[device_id.0],
        device_id.0,
        before.block_size(),
    ));
    assert forall|i: int| 0 <= i < read.len() implies read[i] == data[i] by {
        let byte = offset + i;
        assert(0 <= byte < before.device_bytes(device_id));
        assert(after.device_byte(device_id, byte) == data[byte - offset]);
    }
    assert(read =~= data);
}

/// A write to one device leaves every byte of every other.
pub proof fn law_write_leaves_other_devices(
    before: LocalCoordinator,
    after: LocalCoordinator,
    device_id: DeviceId,
    other: DeviceId,
    byte: int,
)
    requires
        before.wf(),
        after.only_device_changed(&before, device_id),
        other != device_id,
        before.metadata.has_device(other),
        0 <= byte < before.device_bytes(other),
    ensures
        after.metadata.has_device(other),
        after.device_byte(other, byte) == before.device_byte(other, byte),
{
    assert(after.device_kept(&before, other));
    after.lemma_device_bytes_kept(&before, other, byte);
}

/// A write to a device leaves every byte of every file.
pub proof fn law_device_write_leaves_files(
    before: LocalCoordinator,
    after: LocalCoordinator,
    device_id: DeviceId,
    keyspace_id: KeyspaceId,
    file_id: FileId,
    byte: int,
)
    requires
        before.wf(),
        after.only_device_changed(&before, device_id),
        before.metadata.has_file(keyspace_id, file_id),
    ensures
        after.metadata.has_file(keyspace_id, file_id),
        after.file_size(keyspace_id, file_id) == before.file_size(keyspace_id, file_id),
        after.file_byte(keyspace_id, file_id, byte) == before.file_byte(
            keyspace_id,
            file_id,
            byte,
        ),
{
    after.lemma_file_bytes_kept(&before, keyspace_id, file_id);
}

/// A write to the source of a fork does not reach the fork, which goes on
/// reading what the source held when it was forked.
pub proof fn law_fork_keeps_what_it_forked(
    before: LocalCoordinator,
    forked: LocalCoordinator,
    after: LocalCoordinator,
    source: DeviceId,
    target: DeviceId,
    byte: int,
)
    requires
        forked.wf(),
        source != target,
        forked.metadata.has_device(target),
        forall|b: int| #[trigger]
            forked.device_byte(target, b) == before.device_byte(source, b),
        after.only_device_changed(&forked, source),
        0 <= byte < forked.device_bytes(target),
    ensures
        after.device_byte(target, byte) == before.device_byte(source, byte),
{
    law_write_leaves_other_devices(forked, after, source, target, byte);
}

/// A read of the last write of a batch gives back its bytes.
pub proof fn law_file_read_gives_back_last_write(
    before: LocalCoordinator,
    after: LocalCoordinator,
    keyspace_id: KeyspaceId,
    file_id: FileId,
    writes: Seq<FileBatchWrite>,
    read: Seq<u8>,
)
    requires
        after.wf(),
        writes.len() > 0,
        after.file_batch_applied(&before, keyspace_id, file_id, writes),
        read.len() == writes.last().bytes@.len(),
        forall|i: int|
            0 <= i < read.len() ==> #[trigger] read[i] == after.file_byte(
                keyspace_id,
                file_id,
                writes.last().offset + i,
            ),
    ensures
        read == writes.last().bytes@,
{
    after.metadata.lemma_file_wf(keyspace_id, file_id, after.block_size());
    assert forall|i: int| 0 <= i < read.len() implies read[i] == writes.last().bytes@[i] by {
        let byte = writes.last().offset + i;
        assert(file_batch_at(writes, byte) == Some(writes.last().bytes@[i]));
        assert(byte < after.file_limit(keyspace_id, file_id)) by {
            if byte >= after.file_limit(keyspace_id, file_id) {
                assert(file_batch_beyond(writes, after.file_limit(keyspace_id, file_id)));
            }
        }
        assert(after.file_byte(keyspace_id, file_id, byte) == writes.last().bytes@[i]);
    }
    assert(read =~= writes.last().bytes@);
}

/// A write to one file leaves every byte of every other and of every device.
pub proof fn law_file_write_leaves_the_rest(
    before: LocalCoordinator,
    after: LocalCoordinator,
    keyspace_id: KeyspaceId,
    file_id: FileId,
)
    requires
        before.wf(),
        after.only_file_changed(&before, keyspace_id, file_id),
    ensures
        forall|k: KeyspaceId, f: FileId, byte: int|
            (k != keyspace_id || f != file_id) && before.metadata.has_file(k, f) ==> #[trigger]
                after.file_byte(k, f, byte) == before.file_byte(k, f, byte),
        forall|device_id: DeviceId, byte: int|
            before.metadata.has_device(device_id) && 0 <= byte < before.device_bytes(device_id)
                ==> #[trigger] after.device_byte(device_id, byte) == before.device_byte(
                device_id,
                byte,
            ),
{
    assert forall|k: KeyspaceId, f: FileId, byte: int|
        (k != keyspace_id || f != file_id) && before.metadata.has_file(k, f) implies #[trigger]
        after.file_byte(k, f, byte) == before.file_byte(k, f, byte) by {
        assert(before.metadata.has_keyspace(k));
        assert(after.metadata.file_head(k, f) == before.metadata.file_head(k, f));
        after.lemma_file_bytes_kept(&before, k, f);
    }
    assert forall|device_id: DeviceId, byte: int|
        before.metadata.has_device(device_id) && 0 <= byte < before.device_bytes(
            device_id,
        ) implies #[trigger] after.device_byte(device_id, byte) == before.device_byte(
        device_id,
        byte,
    ) by {
        assert(after.device_kept(&before, device_id));
        after.lemma_device_bytes_kept(&before, device_id, byte);
    }
}

/// What was appended to a stream is what a read of the file gives once the
/// stream is published that far.
pub proof fn law_published_append_is_read(
    before: LocalCoordinator,
    appended: LocalCoordinator,
    published: LocalCoordinator,
    token: AppendStream,
    data: Seq<u8>,
    durability: WriteDurability,
    payload_integrity: PayloadIntegrity,
    ticket: AppendTicket,
    publish_through: u64,
    read: Seq<u8>,
)
    requires
        appended.appended(&before, token, data, durability, payload_integrity, ticket),
        before.metadata.append_streams@[token.stream_id.0].state.published_through
            <= before.stream_tail(token.stream_id),
        published.stream_published(&appended, token, publish_through),
        appended.file_size(token.keyspace_id, token.file_id) <= before.stream_tail(
            token.stream_id,
        ),
        publish_through == before.stream_tail(token.stream_id) + data.len(),
        read.len() == data.len(),
        forall|i: int|
            0 <= i < read.len() ==> #[trigger] read[i] == published.file_byte(
                token.keyspace_id,
                token.file_id,
                before.stream_tail(token.stream_id) + i,
            ),
    ensures
        read == data,
{
    let tail = before.stream_tail(token.stream_id);
    assert forall|i: int| 0 <= i < read.len() implies read[i] == data[i] by {
        let byte = tail + i;
        assert(published.file_byte(token.keyspace_id, token.file_id, byte)
            == appended.stream_byte(token.stream_id, byte)->0);
        assert(appended.stream_byte(token.stream_id, byte) == Some(data[byte - tail]));
    }
    assert(read =~= data);
}

/// An append that is not published yet changes no byte of any file.
pub proof fn law_append_is_unseen(
    before: LocalCoordinator,
    after: LocalCoordinator,
    keyspace_id: KeyspaceId,
    file_id: FileId,
    byte: int,
)
    requires
        before.wf(),
        after.only_streams_changed(&before),
        before.metadata.has_file(keyspace_id, file_id),
    ensures
        after.file_size(keyspace_id, file_id) == before.file_size(keyspace_id, file_id),
        after.file_byte(keyspace_id, file_id, byte) == before.file_byte(
            keyspace_id,
            file_id,
            byte,
        ),
{
    after.lemma_file_bytes_kept(&before, keyspace_id, file_id);
}

/// Whether a point is a commit, by its number or by the time that it was made at,
/// which is the number.
pub open spec fn is_commit_point(point: RestorePoint, seq: u64) -> bool {
    point == RestorePoint::Commit(CommitSeq(seq)) || point == RestorePoint::Time(LogicalTime(seq))
}

/// A point in time is the commit with the time's number: a device or a keyspace can be
/// restored at the one where it can be at the other, and to the same.
pub proof fn law_time_is_its_commit(
    metadata: MetadataInner,
    device_id: DeviceId,
    keyspace_id: KeyspaceId,
    seq: u64,
)
    ensures
        ({
            let (time, commit) = (
                RestorePoint::Time(LogicalTime(seq)),
                RestorePoint::Commit(CommitSeq(seq)),
            );
            &&& metadata.has_point(device_id, time) == metadata.has_point(device_id, commit)
            &&& metadata.roots_at_point(device_id, time) == metadata.roots_at_point(
                device_id,
                commit,
            )
            &&& metadata.has_keyspace_point(keyspace_id, time) == metadata.has_keyspace_point(
                keyspace_id,
                commit,
            )
            &&& metadata.catalog_at_point(keyspace_id, time) == metadata.catalog_at_point(
                keyspace_id,
                commit,
            )
            &&& metadata.count_at_point(keyspace_id, time) == metadata.count_at_point(
                keyspace_id,
                commit,
            )
        }),
{
}

/// A device can be restored at every commit and time of the kept history from which
/// on it was not made from another one.
pub proof fn law_every_kept_commit_is_a_point(
    metadata: MetadataInner,
    device_id: DeviceId,
    seq: u64,
    point: RestorePoint,
)
    requires
        metadata.device_heads@.contains_key(device_id.0),
        metadata.history_floor <= seq,
        forall|id: u128| #[trigger]
            metadata.fork_records@.contains_key(id) && metadata.fork_records@[id].target
                == device_id ==> metadata.fork_records@[id].commit_seq.0 <= seq,
        is_commit_point(point, seq),
    ensures
        metadata.has_point(device_id, point),
{
}

/// A write leaves every point at which any device could be restored, and what each
/// device held there.
pub proof fn law_write_leaves_device_points(
    before: LocalCoordinator,
    after: LocalCoordinator,
    written: DeviceId,
    device_id: DeviceId,
    seq: u64,
    point: RestorePoint,
)
    requires
        before.wf(),
        after.only_device_changed(&before, written),
        seq < before.metadata.next_commit_seq,
        is_commit_point(point, seq),
        before.metadata.has_point(device_id, point),
    ensures
        after.metadata.has_point(device_id, point),
        after.metadata.roots_at_point(device_id, point) == before.metadata.roots_at_point(
            device_id,
            point,
        ),
{
    assert(after.metadata.device_heads@.dom().contains(device_id.0)
        == before.metadata.device_heads@.dom().contains(device_id.0));
    assert(after.metadata.past_roots(device_id, seq) == before.metadata.past_roots(
        device_id,
        seq,
    ));
    assert(after.metadata.forked_after(device_id, seq) == before.metadata.forked_after(
        device_id,
        seq,
    ));
}

/// A device that is restored to the last commit before a write, or to the time of that
/// commit, reads as the device did before that write.
pub proof fn law_restore_takes_back_write(
    before: LocalCoordinator,
    after: LocalCoordinator,
    restored: LocalCoordinator,
    device_id: DeviceId,
    point: RestorePoint,
    target: DeviceId,
    byte: int,
)
    requires
        before.wf(),
        before.metadata.has_device(device_id),
        after.only_device_changed(&before, device_id),
        is_commit_point(point, (before.metadata.next_commit_seq - 1) as u64),
        restored.device_holds(&after, target, after.metadata.roots_at_point(device_id, point)),
        restored.config == after.config,
        0 <= byte < before.device_bytes(device_id),
    ensures
        restored.device_byte(target, byte) == before.device_byte(device_id, byte),
{
    let at = (before.metadata.next_commit_seq - 1) as u64;
    assert(before.metadata.device_heads@.contains_key(device_id.0));
    assert(after.metadata.device_heads@.dom().contains(device_id.0));
    before.metadata.lemma_present_roots(device_id, before.block_size());
    assert(after.metadata.past_roots(device_id, at) == before.metadata.past_roots(device_id, at));
    lemma_same_roots_read_alike(before, after, restored, device_id, target, byte);
}

/// A device that is restored to the last commit, or to its time, reads as the device
/// does.
pub proof fn law_restore_gives_what_the_last_commit_left(
    store: LocalCoordinator,
    restored: LocalCoordinator,
    device_id: DeviceId,
    point: RestorePoint,
    target: DeviceId,
    byte: int,
)
    requires
        store.wf(),
        store.metadata.has_device(device_id),
        is_commit_point(point, (store.metadata.next_commit_seq - 1) as u64),
        restored.device_holds(&store, target, store.metadata.roots_at_point(device_id, point)),
        restored.config == store.config,
        0 <= byte < store.device_bytes(device_id),
    ensures
        restored.device_byte(target, byte) == store.device_byte(device_id, byte),
{
    assert(store.metadata.device_heads@.contains_key(device_id.0));
    store.metadata.lemma_present_roots(device_id, store.block_size());
    assert(store.keeps_store(&store));
    lemma_same_roots_read_alike(store, store, restored, device_id, target, byte);
}

/// A commit of a file, be it a batch or a publish of a stream, leaves what its
/// keyspace was at every earlier commit: a keyspace that is restored after it
/// reads like one that was restored before it.
pub proof fn law_file_write_leaves_the_past(
    before: LocalCoordinator,
    after: LocalCoordinator,
    early: LocalCoordinator,
    late: LocalCoordinator,
    keyspace_id: KeyspaceId,
    file_id: FileId,
    early_id: KeyspaceId,
    late_id: KeyspaceId,
    at: CommitSeq,
    early_point: RestorePoint,
    late_point: RestorePoint,
    read_file_id: FileId,
    byte: int,
)
    requires
        before.wf(),
        after.only_file_changed(&before, keyspace_id, file_id),
        after.metadata.catalogs_past_kept(&before.metadata),
        at.0 < before.metadata.next_commit_seq,
        is_commit_point(early_point, at.0),
        is_commit_point(late_point, at.0),
        before.metadata.has_keyspace_point(keyspace_id, early_point),
        early.keeps_store(&before),
        early.metadata.file_head(early_id, read_file_id) == catalog_head(
            before.metadata.keyspace_catalog_shards@,
            before.metadata.catalog_at_point(keyspace_id, early_point),
            read_file_id,
        ),
        late.keeps_store(&after),
        late.metadata.file_head(late_id, read_file_id) == catalog_head(
            after.metadata.keyspace_catalog_shards@,
            after.metadata.catalog_at_point(keyspace_id, late_point),
            read_file_id,
        ),
        early.metadata.has_file(early_id, read_file_id),
    ensures
        late.metadata.file_head(late_id, read_file_id) == early.metadata.file_head(
            early_id,
            read_file_id,
        ),
        late.file_byte(late_id, read_file_id, byte) == early.file_byte(
            early_id,
            read_file_id,
            byte,
        ),
{
    reveal(MetadataInner::catalogs_past_kept);
    let roots = before.metadata.catalog_then(keyspace_id, at.0);
    assert(after.metadata.catalog_then(keyspace_id, at.0) == roots);
    let shard = roots[catalog_index(read_file_id, roots.len() as int)].0;
    let shards = before.metadata.keyspace_catalog_shards@;
    assert(shards.contains_key(shard));
    let root = shards[shard].files@[read_file_id.0].head.root;
    assert(catalog_shard_wf(
        before.nodes(),
        shards[shard],
        before.block_size(),
        before.metadata.next_file_id,
    ));
    assert(file_wf(
        before.nodes(),
        shards[shard].files@[read_file_id.0],
        read_file_id.0,
        before.block_size(),
        before.metadata.next_file_id,
    ));
    assert(before.nodes().contains_key(root.0));
    lemma_tree_byte_kept(before, early, root, byte);
    lemma_tree_byte_kept(before, after, root, byte);
    lemma_tree_byte_kept(after, late, root, byte);
}

/// A keyspace that is restored to a checkpoint has each file as it was when the
/// checkpoint was taken, and as many files, whatever was written to any file since.
pub proof fn law_checkpoint_brings_back_files(
    before: LocalCoordinator,
    after: LocalCoordinator,
    restored: LocalCoordinator,
    keyspace_id: KeyspaceId,
    checkpoint_id: CheckpointId,
    written_in: KeyspaceId,
    written: FileId,
    target: KeyspaceId,
    file_id: FileId,
    byte: int,
)
    requires
        before.wf(),
        before.metadata.has_file(keyspace_id, file_id),
        before.metadata.is_keyspace_checkpoint(keyspace_id, checkpoint_id),
        before.metadata.catalog_at_point(keyspace_id, RestorePoint::Checkpoint(checkpoint_id))
            == before.metadata.catalog_of(keyspace_id),
        before.metadata.count_at_point(keyspace_id, RestorePoint::Checkpoint(checkpoint_id))
            == before.metadata.keyspace_heads@[keyspace_id.0].file_count,
        after.only_file_changed(&before, written_in, written),
        after.metadata.catalogs_past_kept(&before.metadata),
        restored.keeps_store(&after),
        restored.metadata.file_head(target, file_id) == catalog_head(
            after.metadata.keyspace_catalog_shards@,
            after.metadata.catalog_at_point(keyspace_id, RestorePoint::Checkpoint(checkpoint_id)),
            file_id,
        ),
    ensures
        after.metadata.has_keyspace_point(keyspace_id, RestorePoint::Checkpoint(checkpoint_id)),
        after.metadata.count_at_point(keyspace_id, RestorePoint::Checkpoint(checkpoint_id))
            == before.metadata.keyspace_heads@[keyspace_id.0].file_count,
        restored.metadata.file_head(target, file_id) == before.metadata.file_head(
            keyspace_id,
            file_id,
        ),
        restored.file_byte(target, file_id, byte) == before.file_byte(keyspace_id, file_id, byte),
{
    reveal(MetadataInner::catalogs_past_kept);
    let roots = before.metadata.catalog_of(keyspace_id);
    let shard = roots[catalog_index(file_id, roots.len() as int)].0;
    let shards = before.metadata.keyspace_catalog_shards@;
    assert(before.metadata.keyspace_heads@.contains_key(keyspace_id.0));
    assert(catalog_roots_wf(shards, roots));
    vstd::arithmetic::div_mod::lemma_mod_bound(file_id.0 as int, roots.len() as int);
    assert(shards.contains_key(shard));
    let root = shards[shard].files@[file_id.0].head.root;
    assert(catalog_shard_wf(
        before.nodes(),
        shards[shard],
        before.block_size(),
        before.metadata.next_file_id,
    ));
    assert(file_wf(
        before.nodes(),
        shards[shard].files@[file_id.0],
        file_id.0,
        before.block_size(),
        before.metadata.next_file_id,
    ));
    assert(before.nodes().contains_key(root.0));
    lemma_tree_byte_kept(before, after, root, byte);
    lemma_tree_byte_kept(after, restored, root, byte);
}

/// A device that is restored to a checkpoint reads as it did when the
/// checkpoint was taken, whatever has been written to any device since.
pub proof fn law_checkpoint_brings_back_device(
    before: LocalCoordinator,
    after: LocalCoordinator,
    restored: LocalCoordinator,
    device_id: DeviceId,
    written: DeviceId,
    checkpoint_id: CheckpointId,
    target: DeviceId,
    byte: int,
)
    requires
        before.wf(),
        before.metadata.has_device(device_id),
        before.metadata.is_device_checkpoint(device_id, checkpoint_id),
        before.metadata.roots_at_point(device_id, RestorePoint::Checkpoint(checkpoint_id))
            == before.metadata.roots_of(device_id),
        after.only_device_changed(&before, written),
        restored.device_holds(
            &after,
            target,
            after.metadata.roots_at_point(device_id, RestorePoint::Checkpoint(checkpoint_id)),
        ),
        restored.config == after.config,
        0 <= byte < before.device_bytes(device_id),
    ensures
        restored.device_byte(target, byte) == before.device_byte(device_id, byte),
{
    lemma_same_roots_read_alike(before, after, restored, device_id, target, byte);
}

/// Roots lead to the same bytes while nodes and segments are only added.
proof fn lemma_same_roots_read_alike(
    before: LocalCoordinator,
    after: LocalCoordinator,
    restored: LocalCoordinator,
    device_id: DeviceId,
    target: DeviceId,
    byte: int,
)
    requires
        before.wf(),
        before.metadata.has_device(device_id),
        after.keeps_store(&before),
        restored.device_holds(&after, target, before.metadata.roots_of(device_id)),
        restored.config == after.config,
        0 <= byte < before.device_bytes(device_id),
    ensures
        restored.device_byte(target, byte) == before.device_byte(device_id, byte),
{
    let bs = before.block_size();
    let roots = before.metadata.roots_of(device_id);
    let blocks = before.metadata.blocks_of(device_id);
    assert(before.metadata.device_heads@.contains_key(device_id.0));
    lemma_block_of_byte(byte, blocks, bs);
    lemma_device_frame(before.nodes(), after.nodes(), bs, roots, blocks);
    let block = device_block_at(before.nodes(), roots, byte / bs as int);
    if block is Some {
        lemma_device_block_stored(before.nodes(), before.segments(), roots, byte / bs as int);
    }
    lemma_stored_byte_kept(before.segments(), after.segments(), block, bs, byte);
}

/// What is durable is forgotten, and nothing else: of the pending deltas just
/// those of later commits are left.
pub proof fn law_pending_deltas_stay_until_durable(
    pending: Seq<BlockDeltaCommit>,
    durable: u64,
    delta: BlockDeltaCommit,
)
    ensures
        after_durable(pending, durable).contains(delta) <==> pending.contains(delta)
            && delta.commit_seq.0 > durable,
    decreases pending.len(),
{
    if pending.len() > 0 {
        let (first, last) = (pending.drop_last(), pending.last());
        law_pending_deltas_stay_until_durable(first, durable, delta);
        let kept = after_durable(first, durable);
        if first.contains(delta) {
            assert(pending[first.index_of(delta)] == delta);
        }
        if pending.contains(delta) && delta != last {
            assert(first[pending.index_of(delta)] == delta);
        }
        if last.commit_seq.0 > durable {
            let all = after_durable(pending, durable);
            assert(all == kept.push(last));
            if kept.contains(delta) {
                assert(all[kept.index_of(delta)] == delta);
            }
            assert(all[kept.len() as int] == last);
            if all.contains(delta) && delta != last {
                assert(kept[all.index_of(delta)] == delta);
            }
        }
        if pending.contains(last) && delta == last {
            assert(pending[pending.len() - 1] == last);
        }
    }
}

/// A block write that was answered is pending until a persist reports its
/// commit durable.
pub proof fn law_block_write_pends_until_durable(
    before: DurableCoordinator,
    written: DurableCoordinator,
    later: DurableCoordinator,
    device_id: DeviceId,
    commit_seq: CommitSeq,
    durability: WriteDurability,
    durable: u64,
)
    requires
        written.block_write_recorded(&before, device_id, commit_seq, durability),
        later.pending_block_deltas@ == after_durable(written.pending_block_deltas@, durable),
        durable < commit_seq.0,
    ensures
        later.pending_block_deltas@.contains(written.pending_block_deltas@.last()),
        written.pending_block_deltas@.last().device_id == device_id,
        written.pending_block_deltas@.last().commit_seq == commit_seq,
{
    let pending = written.pending_block_deltas@;
    assert(pending[pending.len() - 1] == pending.last());
    law_pending_deltas_stay_until_durable(pending, durable, pending.last());
}

/// The next commit comes after every commit of every device.
pub proof fn law_next_commit_is_newer(store: LocalCoordinator, device_id: DeviceId)
    requires
        store.wf(),
        store.metadata.has_device(device_id),
    ensures
        store.metadata.device_heads@[device_id.0].latest_commit.0 < store.metadata.next_commit_seq,
{
    assert(store.metadata.device_heads@.contains_key(device_id.0));
}

/// A segment that was written under a fresh grant for blocks is taken, and once
/// it is submitted the blocks read as what was written.
pub proof fn law_granted_block_write_reads_back(
    granted: LocalCoordinator,
    stored: LocalCoordinator,
    submitted: LocalCoordinator,
    grant: WriteGrant,
    receipt: SegmentWriteReceipt,
    device_id: DeviceId,
    range: BlockRange,
    data: Seq<u8>,
    byte: int,
)
    requires
        granted.wf(),
        granted.grant_is_current(grant, data.len() as int),
        grant.request.intent matches WriteGrantIntent::BlockWrite {
            device_id: granted_device,
            range: granted_range,
            ..
        } && granted_device == device_id && granted_range == range,
        stored.same_metadata(&granted),
        stored.config == granted.config,
        stored.takes_block_receipt(grant, receipt),
        stored.segments()[receipt.segment_id.0].bytes@ == data,
        submitted.write_applied(
            &stored,
            device_id,
            (range.start.0 * stored.block_size()) as u64,
            data,
        ),
        range.start.0 * stored.block_size() <= byte < range.end() * stored.block_size(),
    ensures
        submitted.device_byte(device_id, byte) == data[byte - range.start.0
            * stored.block_size()],
{
    let bs = granted.block_size();
    assert(granted.metadata.device_heads@.contains_key(device_id.0));
    assert(head_wf(
        granted.nodes(),
        granted.metadata.device_specs@,
        granted.metadata.device_heads@[device_id.0],
        device_id.0,
        bs,
    ));
    if let WriteGrantIntent::BlockWrite { shard_id, old_root, .. } = grant.request.intent {
        let roots = granted.metadata.roots_of(device_id);
        assert(roots[shard_id.0 as int] == old_root);
        let blocks = granted.metadata.blocks_of(device_id);
        assert(range.end() <= blocks);
        assert(0 <= byte < blocks * bs && range.start.0 * bs <= u64::MAX && range.end() * bs
            == range.start.0 * bs + range.blocks.0 * bs) by (nonlinear_arith)
            requires
                range.start.0 * bs <= byte < range.end() * bs,
                range.end() <= blocks,
                blocks * bs <= u64::MAX,
                range.end() == range.start.0 + range.blocks.0,
                bs > 0,
        ;
    }
}

/// A store that is opened from its own image holds the storage nodes that the image
/// has, whatever list is asked for, and reads like the store.
pub proof fn law_reopened_store_reads_alike(
    store: LocalCoordinator,
    image: DurableStoreState,
    reopened: LocalCoordinator,
)
    requires
        store.wf(),
        image.holds(&store),
        reopened.opened_from(&image),
    ensures
        image.config.valid(),
        image.wf(),
        reopened.storage_nodes.node_ids@ == store.storage_nodes.node_ids@,
        forall|device_id: DeviceId| #[trigger]
            reopened.metadata.has_device(device_id) == store.metadata.has_device(device_id),
        forall|device_id: DeviceId, byte: int| #[trigger]
            reopened.device_byte(device_id, byte) == store.device_byte(device_id, byte),
        forall|keyspace_id: KeyspaceId, file_id: FileId| #[trigger]
            reopened.metadata.file_head(keyspace_id, file_id) == store.metadata.file_head(
                keyspace_id,
                file_id,
            ),
        forall|keyspace_id: KeyspaceId, file_id: FileId, byte: int| #[trigger]
            reopened.file_byte(keyspace_id, file_id, byte) == store.file_byte(
                keyspace_id,
                file_id,
                byte,
            ),
{
}

/// A store keeps the policy that it was opened with over any run of requests,
/// persists and ticks, each of which follows on the state before it.
pub proof fn law_policy_stays(states: Seq<DurableCoordinator>, policy: MaintenancePolicy)
    requires
        states.len() > 0,
        states[0].maintenance_policy == policy,
        forall|i: int|
            0 <= i < states.len() - 1 ==> (#[trigger] states[i + 1]).follows(&states[i]),
    ensures
        states.last().maintenance_policy == policy,
        states.last().local.config == states[0].local.config,
    decreases states.len(),
{
    if states.len() > 1 {
        let shorter = states.drop_last();
        assert forall|i: int| 0 <= i < shorter.len() - 1 implies (
        #[trigger] shorter[i + 1]).follows(&shorter[i]) by {
            assert(states[i + 1].follows(&states[i]));
        }
        law_policy_stays(shorter, policy);
        let at = states.len() - 2;
        assert(states[at + 1].follows(&states[at]));
    }
}

/// A publish that was served stays served as it was over any run of requests on
/// streams and files: waiting for its ticket again finds the same commit.
pub proof fn law_served_publish_stays(
    states: Seq<LocalCoordinator>,
    files: Seq<Option<(KeyspaceId, FileId)>>,
    id: u128,
)
    requires
        states.len() == files.len() + 1,
        states[0].metadata.append_publish_tickets@.contains_key(id),
        states[0].metadata.append_publish_tickets@[id].completed is Some,
        forall|i: int|
            0 <= i < files.len() ==> match #[trigger] files[i] {
                Some((keyspace_id, file_id)) => states[i + 1].only_file_changed(
                    &states[i],
                    keyspace_id,
                    file_id,
                ),
                None => states[i + 1].only_streams_changed(&states[i]),
            },
    ensures
        states.last().metadata.append_publish_tickets@.contains_key(id),
        states.last().metadata.append_publish_tickets@[id]
            == states[0].metadata.append_publish_tickets@[id],
    decreases files.len(),
{
    if files.len() > 0 {
        let (fewer, shorter) = (files.drop_last(), states.drop_last());
        let at = files.len() - 1;
        assert forall|i: int| 0 <= i < fewer.len() implies match #[trigger] fewer[i] {
            Some((keyspace_id, file_id)) => shorter[i + 1].only_file_changed(
                &shorter[i],
                keyspace_id,
                file_id,
            ),
            None => shorter[i + 1].only_streams_changed(&shorter[i]),
        } by {
            assert(fewer[i] == files[i]);
        }
        law_served_publish_stays(shorter, fewer, id);
        assert(files[at] == files.last());
        assert(states[at + 1].metadata.served_kept(&states[at].metadata));
    }
}

/// A range of a device that could be read can be read after a write, and a range
/// that lies in the write can be read in any case; with checksums too, where the
/// write has them.
pub proof fn law_written_device_can_be_read(
    before: LocalCoordinator,
    after: LocalCoordinator,
    device_id: DeviceId,
    offset: u64,
    len: int,
    policy: PayloadIntegrity,
    range: ByteRange,
    verification: ReadVerification,
)
    requires
        before.wf(),
        after.wf(),
        before.metadata.has_device(device_id),
        after.keeps_store(&before),
        after.write_stored(&before, device_id, offset, len, policy),
        range.end() <= before.device_bytes(device_id),
        before.serves_device_read(device_id, range, verification) || (offset <= range.offset
            && range.end() <= offset + len),
        verification == ReadVerification::RequireVerified ==> policy == PayloadIntegrity::Verified,
    ensures
        after.serves_device_read(device_id, range, verification),
{
    let bs = after.block_size();
    let roots = after.metadata.roots_of(device_id);
    assert forall|byte: int| #[trigger] range.contains(byte) implies (device_block_at(
        after.nodes(),
        roots,
        byte / bs as int,
    ) matches Some(held) ==> segment_reaches(after.segments(), held, bs, byte) && (verification
        == ReadVerification::RequireVerified ==> checked_ids(after.segments()).contains(
        held.segment_id.0,
    ))) by {
        let block = after.device_block(device_id, byte);
        if let Some(held) = block {
            if offset <= byte < offset + len {
                assert(stored_as(
                    after.segments(),
                    held.segment_id.0,
                    policy,
                    bs,
                    SegmentLifecycleState::Referenced,
                ));
                lemma_device_block_stored(after.nodes(), after.segments(), roots, byte / bs as int);
                lemma_whole_record_reaches(after, held, byte);
            } else {
                assert(before.device_block(device_id, byte) == block);
                assert(segment_reaches(before.segments(), held, bs, byte));
                assert(before.segments().contains_key(held.segment_id.0));
            }
        }
    }
    assert(device_reaches(after.nodes(), after.segments(), roots, bs, range));
    if verification == ReadVerification::RequireVerified {
        assert(device_checked(after.nodes(), after.segments(), roots, bs, range));
    }
}

/// A block of a segment that is made of whole blocks can be read to its end.
proof fn lemma_whole_record_reaches(store: LocalCoordinator, held: SegmentBlock, byte: int)
    requires
        store.wf(),
        block_stored(store.segments(), held),
        store.segments()[held.segment_id.0].bytes@.len() as int % store.block_size() as int == 0,
        byte >= 0,
    ensures
        segment_reaches(store.segments(), held, store.block_size(), byte),
{
    let bs = store.block_size();
    let record = store.segments()[held.segment_id.0];
    assert(store.segments().contains_key(held.segment_id.0));
    assert(record_wf(record, held.segment_id.0, bs));
    let only = store.segments().restrict(set![held.segment_id.0]);
    assert(whole_blocks(only, bs)) by {
        assert forall|id: u128| #[trigger] only.contains_key(id) implies only[id].bytes@.len()
            as int % bs as int == 0 by {
            assert(id == held.segment_id.0);
        }
    }
    vstd::arithmetic::div_mod::lemma_fundamental_div_mod(byte, bs as int);
    lemma_whole_block_inside(only, held, bs, byte % bs as int);
}

/// What a batch wrote to a file can be read, with checksums where it was written
/// with them.
pub proof fn law_written_file_can_be_read(
    before: LocalCoordinator,
    after: LocalCoordinator,
    keyspace_id: KeyspaceId,
    file_id: FileId,
    writes: Seq<FileBatchWrite>,
    policy: PayloadIntegrity,
    range: ByteRange,
    verification: ReadVerification,
)
    requires
        after.wf(),
        after.file_batch_applied(&before, keyspace_id, file_id, writes),
        after.file_batch_stored(&before, keyspace_id, file_id, writes, policy),
        range.len > 0,
        forall|byte: int| #[trigger]
            range.contains(byte) ==> file_batch_at(writes, byte) is Some,
        verification == ReadVerification::RequireVerified ==> policy == PayloadIntegrity::Verified,
    ensures
        after.takes_file_read(keyspace_id, file_id, range, range.len as int),
        after.serves_file_read(keyspace_id, file_id, range, verification),
{
    let bs = after.block_size();
    after.metadata.lemma_file_wf(keyspace_id, file_id, bs);
    let root = after.metadata.file_head(keyspace_id, file_id)->0.root.0;
    let limit = after.file_limit(keyspace_id, file_id);
    assert forall|byte: int| #[trigger] range.contains(byte) implies 0 <= byte < limit && byte
        < after.file_size(keyspace_id, file_id) by {
        assert(file_batch_at(writes, byte) is Some);
        if byte >= limit {
            assert(file_batch_beyond(writes, limit));
        }
        assert(byte_applied(
            after.file_byte(keyspace_id, file_id, byte),
            before.file_byte(keyspace_id, file_id, byte),
            file_batch_at(writes, byte),
            byte < after.file_size(keyspace_id, file_id),
            byte < before.file_size(keyspace_id, file_id),
            before.clean_tail(keyspace_id, file_id),
        ));
    }
    assert(range.contains(range.end() - 1));
    assert forall|byte: int| #[trigger] range.contains(byte) implies after.file_run(
        keyspace_id,
        file_id,
        byte,
    ) is None && (after.file_block(keyspace_id, file_id, byte) matches Some(held)
        && segment_reaches(after.segments(), held, bs, byte) && (policy
        == PayloadIntegrity::Verified ==> checked_ids(after.segments()).contains(
        held.segment_id.0,
    ))) by {
        let block = after.file_block(keyspace_id, file_id, byte);
        assert(block is Some);
        let held = block->0;
        lemma_block_of_byte(byte, after.nodes()[root].covered_range.end(), bs);
        lemma_block_stored(after.nodes(), after.segments(), root, byte / bs as int);
        lemma_whole_record_reaches(after, held, byte);
    }
    assert(tree_reaches(after.nodes(), after.segments(), root, bs, range)) by {
        assert forall|byte: int| #[trigger] range.contains(byte)
            && after.nodes()[root].covered_range.contains(byte / bs as int) implies (block_at(
            after.nodes(),
            root,
            byte / bs as int,
        ) matches Some(held) ==> segment_reaches(after.segments(), held, bs, byte)) by {
            assert(after.file_block(keyspace_id, file_id, byte) == block_at(
                after.nodes(),
                root,
                byte / bs as int,
            ));
        }
    }
    if verification == ReadVerification::RequireVerified {
        assert(tree_within(after.nodes(), root, bs, range, checked_ids(after.segments()))) by {
            assert forall|byte: int| #[trigger] range.contains(byte)
                && after.nodes()[root].covered_range.contains(byte / bs as int) implies (block_at(
                after.nodes(),
                root,
                byte / bs as int,
            ) matches Some(held) ==> checked_ids(after.segments()).contains(held.segment_id.0)) by {
                assert(after.file_block(keyspace_id, file_id, byte) == block_at(
                    after.nodes(),
                    root,
                    byte / bs as int,
                ));
            }
        }
        assert(after.file_has_no_runs(keyspace_id, file_id, range)) by {
            assert forall|byte: int| #[trigger] range.contains(byte) implies run_at(
                after.nodes(),
                root,
                bs,
                byte,
            ) is None by {
                assert(after.file_run(keyspace_id, file_id, byte) is None);
            }
        }
    }
}

/// Of two leases on a device only the later is good.
pub proof fn law_newer_lease_ends_older(
    store: LocalCoordinator,
    older: BlockWriterLease,
    newer: BlockWriterLease,
)
    requires
        store.lease_valid(newer),
        older.device_id == newer.device_id,
        older != newer,
    ensures
        !store.lease_valid(older),
{
}

/// Planning changes nothing that a plan is made from: whatever makes a plan of
/// the policy, the cursor, the pending payload and what the store holds makes
/// the same plan again.
pub proof fn law_plans_agree<P>(
    before: DurableCoordinator,
    after: DurableCoordinator,
    plan: spec_fn(
        MaintenancePolicy,
        MaintenanceProgress,
        PendingDataLogAppend,
        MetadataInner,
        StorageNodeRegistry,
    ) -> P,
)
    requires
        after == (DurableCoordinator {
            local: LocalCoordinator {
                observability: after.local.observability,
                ..before.local
            },
            ..before
        }),
    ensures
        plan(
            after.maintenance_policy,
            after.maintenance,
            after.pending_data_log_append,
            after.local.metadata,
            after.local.storage_nodes,
        ) == plan(
            before.maintenance_policy,
            before.maintenance,
            before.pending_data_log_append,
            before.local.metadata,
            before.local.storage_nodes,
        ),
        after.due == before.due,
        after.persist == before.persist,
{
}

/// How many of some file batches were committed.
pub open spec fn committed_count(batches: Seq<Option<Seq<FileBatchWrite>>>) -> int
    decreases batches.len(),
{
    if batches.len() == 0 {
        0
    } else {
        committed_count(batches.drop_last()) + if batches.last() is Some {
            1int
        } else {
            0
        }
    }
}

/// While there is room, every file batch that is committed leaves one profile with
/// its number of writes, in the order of the commits, and one that is refused
/// leaves none. A batch that was refused is given as none.
pub proof fn law_one_profile_for_each_batch(
    states: Seq<LocalCoordinator>,
    batches: Seq<Option<Seq<FileBatchWrite>>>,
)
    requires
        states.len() == batches.len() + 1,
        states[0].native_file_batch_profiler is Some,
        states[0].native_file_batch_profiler->0.items@.len() + committed_count(batches)
            <= states[0].native_file_batch_profiler->0.capacity,
        forall|i: int|
            0 <= i < batches.len() ==> match #[trigger] batches[i] {
                Some(writes) => states[i + 1].file_batch_profiled(&states[i], writes),
                None => states[i + 1].native_file_batch_profiler
                    == states[i].native_file_batch_profiler,
            },
    ensures
        states.last().native_file_batch_profiler is Some,
        states.last().native_file_batch_profiler->0.capacity
            == states[0].native_file_batch_profiler->0.capacity,
        states.last().native_file_batch_profiler->0.items@.len()
            == states[0].native_file_batch_profiler->0.items@.len() + committed_count(batches),
        forall|i: int|
            0 <= i < batches.len() ==> (#[trigger] batches[i] matches Some(writes)
                ==> states.last().native_file_batch_profiler->0.items@[states[0].native_file_batch_profiler->0.items@.len()
                + committed_count(batches.take(i))].write_count == writes.len()),
        committed_count(batches) >= 0,
    decreases batches.len(),
{
    if batches.len() > 0 {
        let (fewer, shorter) = (batches.drop_last(), states.drop_last());
        let at = batches.len() - 1;
        assert forall|i: int| 0 <= i < fewer.len() implies match #[trigger] fewer[i] {
            Some(writes) => shorter[i + 1].file_batch_profiled(&shorter[i], writes),
            None => shorter[i + 1].native_file_batch_profiler
                == shorter[i].native_file_batch_profiler,
        } by {
            assert(fewer[i] == batches[i]);
        }
        law_one_profile_for_each_batch(shorter, fewer);
        assert(batches[at] == batches.last());
        assert(states[at] == shorter.last());
        let first = states[0].native_file_batch_profiler->0.items@.len();
        let before = shorter.last().native_file_batch_profiler->0.items@;
        let after = states.last().native_file_batch_profiler->0.items@;
        assert(batches.take(at) =~= fewer);
        assert forall|i: int| 0 <= i < batches.len() implies (
        #[trigger] batches[i] matches Some(writes) ==> after[first + committed_count(
            batches.take(i),
        )].write_count == writes.len()) by {
            if i < at {
                assert(fewer[i] == batches[i]);
                assert(fewer.take(i) =~= batches.take(i));
                if batches[i] is Some {
                    lemma_committed_before(fewer, i);
                }
            }
        }
    }
}

/// Fewer batches were committed before a committed one than in all.
proof fn lemma_committed_before(batches: Seq<Option<Seq<FileBatchWrite>>>, at: int)
    requires
        0 <= at < batches.len(),
        batches[at] is Some,
    ensures
        0 <= committed_count(batches.take(at)) < committed_count(batches),
    decreases batches.len(),
{
    let fewer = batches.drop_last();
    if at < batches.len() - 1 {
        assert(fewer.take(at) =~= batches.take(at));
        lemma_committed_before(fewer, at);
    } else {
        assert(batches.take(at) =~= fewer);
        lemma_committed_some(fewer);
    }
}

proof fn lemma_committed_some(batches: Seq<Option<Seq<FileBatchWrite>>>)
    ensures
        committed_count(batches) >= 0,
    decreases batches.len(),
{
    if batches.len() > 0 {
        lemma_committed_some(batches.drop_last());
    }
}

/// A device whose head is as it was reads as it did, whatever else was stored: a
/// refused write leaves every byte.
pub proof fn law_same_head_reads_alike(
    before: LocalCoordinator,
    after: LocalCoordinator,
    device_id: DeviceId,
    byte: int,
)
    requires
        before.wf(),
        before.metadata.has_device(device_id),
        after.keeps_store(&before),
        after.metadata.device_heads@[device_id.0] == before.metadata.device_heads@[device_id.0],
        0 <= byte < before.device_bytes(device_id),
    ensures
        after.device_byte(device_id, byte) == before.device_byte(device_id, byte),
{
    let bs = before.block_size();
    let roots = before.metadata.roots_of(device_id);
    let blocks = before.metadata.blocks_of(device_id);
    assert(before.metadata.device_heads@.contains_key(device_id.0));
    lemma_block_of_byte(byte, blocks, bs);
    lemma_device_frame(before.nodes(), after.nodes(), bs, roots, blocks);
    let block = device_block_at(before.nodes(), roots, byte / bs as int);
    if block is Some {
        lemma_device_block_stored(before.nodes(), before.segments(), roots, byte / bs as int);
    }
    lemma_stored_byte_kept(before.segments(), after.segments(), block, bs, byte);
}

/// A file whose head is as it was reads as it did, whatever else was stored: a
/// refused batch or publish leaves every byte.
pub proof fn law_same_file_head_reads_alike(
    before: LocalCoordinator,
    after: LocalCoordinator,
    keyspace_id: KeyspaceId,
    file_id: FileId,
    byte: int,
)
    requires
        before.wf(),
        before.metadata.has_file(keyspace_id, file_id),
        after.keeps_store(&before),
        after.metadata.file_head(keyspace_id, file_id) == before.metadata.file_head(
            keyspace_id,
            file_id,
        ),
    ensures
        after.file_byte(keyspace_id, file_id, byte) == before.file_byte(
            keyspace_id,
            file_id,
            byte,
        ),
{
    before.metadata.lemma_file_wf(keyspace_id, file_id, before.block_size());
    lemma_tree_byte_kept(
        before,
        after,
        before.metadata.file_head(keyspace_id, file_id)->0.root,
        byte,
    );
}

} // verus!
