//! What an export holds: the commits up to its point, the devices and keyspaces as
//! they were there, and all that these lead to.
use vstd::prelude::*;

use crate::coordinator::LocalCoordinator;
use crate::export::{epoch_files, epochs_kept};
use crate::export_cursor::DurableExportCursor;
use crate::export_rows::{NameKind, Names, OfCommit, OfOwner, between, lists_shard, map_names};
use crate::export_state::exported;
use crate::history_laws::{
    law_first_later_commit_tells_the_count, law_first_later_commit_tells_the_root,
    law_first_later_commit_tells_the_shard,
};
use crate::id::{DeviceId, FileId, KeyspaceId};
use crate::metadata::{FileWriterEpoch, MetadataInner, catalog_shard_wf, file_wf};
use crate::metadata_records::{DeviceHead, FileCommit, KeyspaceCommit, MappingOwner, ShardCommit};
use crate::reach::{lemma_kept_below, lemma_reaches_older, reaches};
use crate::tree::{block_at, run_at};

verus! {

/// Whether a list has a row.
pub open spec fn has_row<T>(rows: Seq<T>, row: T) -> bool {
    exists|i: int| 0 <= i < rows.len() && #[trigger] rows[i] == row
}

/// Of some rows, those between two commits are kept, each of them, and no others.
pub proof fn law_rows_between_are_kept<T: OfCommit>(rows: Seq<T>, from: u64, to: u64, row: T)
    ensures
        has_row(between(rows, from, to), row) <==> has_row(rows, row) && from <= row.seq_of()
            <= to,
        from == 0 && to == u64::MAX ==> between(rows, from, to) == rows,
    decreases rows.len(),
{
    let kept = between(rows, from, to);
    if rows.len() > 0 {
        let fewer = rows.drop_last();
        let last = rows.last();
        let less = between(fewer, from, to);
        law_rows_between_are_kept(fewer, from, to, row);
        assert(rows[rows.len() - 1] == last);
        if has_row(rows, row) && from <= row.seq_of() <= to {
            let i = choose|i: int| 0 <= i < rows.len() && #[trigger] rows[i] == row;
            if i < fewer.len() {
                assert(fewer[i] == row);
                let k = choose|k: int| 0 <= k < less.len() && #[trigger] less[k] == row;
                assert(kept[k] == row);
            } else {
                assert(kept[kept.len() - 1] == row);
            }
        }
        if has_row(kept, row) {
            let k = choose|k: int| 0 <= k < kept.len() && #[trigger] kept[k] == row;
            if k < less.len() {
                assert(less[k] == row);
                let i = choose|i: int| 0 <= i < fewer.len() && #[trigger] fewer[i] == row;
                assert(rows[i] == row);
            }
        }
        if from == 0 && to == u64::MAX {
            assert(kept =~= rows);
        }
    }
}

/// Rows that are kept stand as they stood: what is kept of some rows comes before
/// what is kept of the rows behind them.
pub proof fn law_kept_rows_stay_in_order<T: OfCommit>(
    rows: Seq<T>,
    behind: Seq<T>,
    from: u64,
    to: u64,
)
    ensures
        between(rows + behind, from, to) == between(rows, from, to) + between(behind, from, to),
    decreases behind.len(),
{
    if behind.len() == 0 {
        assert(rows + behind =~= rows);
        assert(between(rows, from, to) + between(behind, from, to) =~= between(rows, from, to));
    } else {
        assert((rows + behind).drop_last() =~= rows + behind.drop_last());
        law_kept_rows_stay_in_order(rows, behind.drop_last(), from, to);
        assert(between(rows + behind, from, to) =~= between(rows, from, to) + between(
            behind,
            from,
            to,
        ));
    }
}

/// The first commit that an export after an earlier one is of.
pub open spec fn first_exported(previous: Option<&DurableExportCursor>) -> u64 {
    match previous {
        Some(cursor) => cursor.next_commit_seq,
        None => 0,
    }
}

/// An export has the commits of devices, keyspaces and files from where an earlier
/// one ended up to its point, and none besides.
pub proof fn law_export_has_the_commits(
    before: MetadataInner,
    after: MetadataInner,
    target: u64,
    previous: Option<&DurableExportCursor>,
    shard_commit: ShardCommit,
    keyspace_commit: KeyspaceCommit,
    file_commit: FileCommit,
)
    requires
        exported(before, after, target, previous),
    ensures
        has_row(after.shard_commits@, shard_commit) <==> has_row(
            before.shard_commits@,
            shard_commit,
        ) && first_exported(previous) <= shard_commit.commit_seq.0 <= target,
        has_row(after.keyspace_commits@, keyspace_commit) <==> has_row(
            before.keyspace_commits@,
            keyspace_commit,
        ) && first_exported(previous) <= keyspace_commit.commit_seq.0 <= target,
        has_row(after.file_commits@, file_commit) <==> has_row(before.file_commits@, file_commit)
            && first_exported(previous) <= file_commit.commit_seq.0 <= target,
{
    let from = first_exported(previous);
    law_rows_between_are_kept(before.shard_commits@, from, target, shard_commit);
    law_rows_between_are_kept(before.keyspace_commits@, from, target, keyspace_commit);
    law_rows_between_are_kept(before.file_commits@, from, target, file_commit);
}

/// An export has the forks and deletes from where an earlier one ended up to its
/// point, and the groups and checkpoints up to its point that an earlier one did
/// not have.
pub proof fn law_export_has_the_records(
    before: MetadataInner,
    after: MetadataInner,
    target: u64,
    previous: Option<&DurableExportCursor>,
    id: u128,
)
    requires
        exported(before, after, target, previous),
    ensures
        after.fork_records@.contains_key(id) <==> before.fork_records@.contains_key(id)
            && first_exported(previous) <= before.fork_records@[id].commit_seq.0 <= target,
        after.delete_records@.contains_key(id) <==> before.delete_records@.contains_key(id)
            && first_exported(previous) <= before.delete_records@[id].commit_seq.0 <= target,
        after.commit_groups@.contains_key(id) <==> before.commit_groups@.contains_key(id)
            && before.commit_groups@[id].commit_seq.0 <= target && (previous matches Some(cursor)
            ==> id >= cursor.next_commit_group_id),
        after.checkpoints@.contains_key(id) <==> before.checkpoints@.contains_key(id)
            && before.checkpoints@[id].commit_seq.0 <= target && (previous matches Some(cursor)
            ==> id >= cursor.next_checkpoint_id),
        after.fork_records@.contains_key(id) ==> after.fork_records@[id]
            == before.fork_records@[id],
        after.delete_records@.contains_key(id) ==> after.delete_records@[id]
            == before.delete_records@[id],
        after.commit_groups@.contains_key(id) ==> after.commit_groups@[id]
            == before.commit_groups@[id],
        after.checkpoints@.contains_key(id) ==> after.checkpoints@[id] == before.checkpoints@[id],
{
}

/// A device that was not changed after a point is exported with the roots that it
/// has, unless it was deleted by then; one that was deleted by then is exported as
/// deleted.
pub proof fn law_unchanged_device_is_exported_as_it_is(
    before: MetadataInner,
    after: MetadataInner,
    target: u64,
    previous: Option<&DurableExportCursor>,
    device_id: DeviceId,
)
    requires
        exported(before, after, target, previous),
    ensures
        before.device_heads@.contains_key(device_id.0)
            && before.device_heads@[device_id.0].latest_commit.0 <= target
            ==> after.device_heads@.contains_key(device_id.0)
            && after.device_heads@[device_id.0].shard_roots@
            == before.device_heads@[device_id.0].shard_roots@
            && after.device_heads@[device_id.0].latest_commit
            == before.device_heads@[device_id.0].latest_commit,
        before.deleted_device_heads@.contains_key(device_id.0)
            && before.deleted_device_heads@[device_id.0].latest_commit.0 <= target
            ==> after.deleted_device_heads@.contains_key(device_id.0)
            && after.deleted_device_heads@[device_id.0]
            == before.deleted_device_heads@[device_id.0],
        !before.device_heads@.contains_key(device_id.0)
            && !before.deleted_device_heads@.contains_key(device_id.0)
            ==> !after.device_heads@.contains_key(device_id.0)
            && !after.deleted_device_heads@.contains_key(device_id.0),
{
    if before.device_heads@.contains_key(device_id.0)
        && before.device_heads@[device_id.0].latest_commit.0 <= target {
        assert(before.live_at(device_id.0, target));
        assert(after.device_heads@.contains_key(device_id.0));
    }
}

/// A device that was written after a point is exported, as far as history reaches
/// and no fork made it since, with the roots that it had at the point: in each
/// shard that which the first later commit replaced. That it is deleted now is
/// nothing to it.
pub proof fn law_changed_device_is_exported_as_it_was(
    before: MetadataInner,
    after: MetadataInner,
    target: u64,
    previous: Option<&DurableExportCursor>,
    device_id: DeviceId,
    now: DeviceHead,
    first: int,
)
    requires
        exported(before, after, target, previous),
        before.device_heads@.contains_key(device_id.0) ==> now
            == before.device_heads@[device_id.0],
        !before.device_heads@.contains_key(device_id.0)
            ==> before.deleted_device_heads@.contains_key(device_id.0) && now
            == before.deleted_device_heads@[device_id.0],
        now.latest_commit.0 > target,
        target >= before.history_floor,
        forall|id: u128| #[trigger]
            before.fork_records@.contains_key(id) && before.fork_records@[id].target == device_id
                ==> before.fork_records@[id].commit_seq.0 <= target,
        forall|i: int|
            0 <= i < before.shard_commits@.len() && (#[trigger] before.shard_commits@[i]).device_id
                == device_id && before.shard_commits@[i].commit_seq.0 > target
                ==> before.shard_commits@[i].shard_id.0 < now.shard_roots@.len(),
        0 <= first < before.shard_commits@.len(),
        before.shard_commits@[first].device_id == device_id,
        before.shard_commits@[first].commit_seq.0 > target,
        forall|i: int|
            0 <= i < first && (#[trigger] before.shard_commits@[i]).device_id == device_id
                && before.shard_commits@[i].shard_id == before.shard_commits@[first].shard_id
                ==> before.shard_commits@[i].commit_seq.0 <= target,
    ensures
        after.device_heads@.contains_key(device_id.0),
        after.device_heads@[device_id.0].shard_roots@.len() == now.shard_roots@.len(),
        after.device_heads@[device_id.0].shard_roots@[before.shard_commits@[first].shard_id.0 as int]
            == before.shard_commits@[first].old_root,
{
    assert(!before.forked_after(device_id, target));
    assert(before.live_at(device_id.0, target));
    assert(after.device_heads@.contains_key(device_id.0));
    law_first_later_commit_tells_the_root(
        now.shard_roots@,
        before.shard_commits@,
        device_id,
        target,
        first,
    );
}

/// A keyspace that was not changed after a point is exported with the catalog and
/// the number of files that it has.
pub proof fn law_unchanged_keyspace_is_exported_as_it_is(
    before: MetadataInner,
    after: MetadataInner,
    target: u64,
    previous: Option<&DurableExportCursor>,
    keyspace_id: KeyspaceId,
)
    requires
        exported(before, after, target, previous),
    ensures
        before.keyspace_heads@.contains_key(keyspace_id.0)
            && before.keyspace_heads@[keyspace_id.0].latest_commit.0 <= target
            ==> after.keyspace_heads@.contains_key(keyspace_id.0)
            && after.keyspace_heads@[keyspace_id.0].shard_roots@
            == before.keyspace_heads@[keyspace_id.0].shard_roots@
            && after.keyspace_heads@[keyspace_id.0].file_count
            == before.keyspace_heads@[keyspace_id.0].file_count
            && after.keyspace_heads@[keyspace_id.0].latest_commit
            == before.keyspace_heads@[keyspace_id.0].latest_commit,
        !before.keyspace_heads@.contains_key(keyspace_id.0)
            ==> !after.keyspace_heads@.contains_key(keyspace_id.0),
{
    if before.keyspace_heads@.contains_key(keyspace_id.0)
        && before.keyspace_heads@[keyspace_id.0].latest_commit.0 <= target {
        assert(before.keyspace_live_at(keyspace_id.0, target));
        assert(after.keyspace_heads@.contains_key(keyspace_id.0));
    }
}

/// A keyspace that was changed after a point, and is known there, is exported with
/// the catalog that it had: the shard of the first later commit is the one which
/// that commit replaced.
pub proof fn law_changed_keyspace_is_exported_as_it_was(
    before: MetadataInner,
    after: MetadataInner,
    target: u64,
    previous: Option<&DurableExportCursor>,
    keyspace_id: KeyspaceId,
    first: int,
)
    requires
        exported(before, after, target, previous),
        before.keyspace_known_at(keyspace_id, target),
        before.keyspace_heads@[keyspace_id.0].latest_commit.0 > target,
        forall|i: int|
            0 <= i < before.keyspace_commits@.len() && (
            #[trigger] before.keyspace_commits@[i]).keyspace_id == keyspace_id
                && before.keyspace_commits@[i].commit_seq.0 > target
                ==> before.keyspace_commits@[i].shard_index
                < before.keyspace_heads@[keyspace_id.0].shard_roots@.len(),
        0 <= first < before.keyspace_commits@.len(),
        before.keyspace_commits@[first].keyspace_id == keyspace_id,
        before.keyspace_commits@[first].commit_seq.0 > target,
        forall|i: int|
            0 <= i < first && (#[trigger] before.keyspace_commits@[i]).keyspace_id == keyspace_id
                ==> before.keyspace_commits@[i].commit_seq.0 <= target,
    ensures
        after.keyspace_heads@.contains_key(keyspace_id.0),
        after.keyspace_heads@[keyspace_id.0].shard_roots@[before.keyspace_commits@[first].shard_index as int]
            == before.keyspace_commits@[first].old_shard,
        after.keyspace_heads@[keyspace_id.0].file_count
            == before.keyspace_commits@[first].old_file_count,
{
    assert(before.keyspace_live_at(keyspace_id.0, target));
    assert(after.keyspace_heads@.contains_key(keyspace_id.0));
    law_first_later_commit_tells_the_shard(
        before.keyspace_heads@[keyspace_id.0].shard_roots@,
        before.keyspace_commits@,
        keyspace_id,
        target,
        first,
    );
    law_first_later_commit_tells_the_count(
        before.keyspace_heads@[keyspace_id.0].file_count,
        before.keyspace_commits@,
        keyspace_id,
        target,
        first,
    );
}

/// A whole export holds the files of each keyspace that it has: every shard of the
/// keyspace's catalog, and every block and run of each file in it.
pub proof fn law_export_keeps_files(
    before: MetadataInner,
    after: MetadataInner,
    target: u64,
    keyspace_id: KeyspaceId,
    shard: int,
    file_id: FileId,
    block_size: u64,
)
    requires
        before.files_wf(block_size),
        crate::tree::tree_wf(before.nodes(), block_size),
        exported(before, after, target, None),
        after.keyspace_heads@.contains_key(keyspace_id.0),
        0 <= shard < after.keyspace_heads@[keyspace_id.0].shard_roots@.len(),
        before.keyspace_catalog_shards@.contains_key(
            after.keyspace_heads@[keyspace_id.0].shard_roots@[shard].0,
        ),
        before.keyspace_catalog_shards@[after.keyspace_heads@[keyspace_id.0].shard_roots@[shard].0].files@.contains_key(
        file_id.0),
    ensures
        ({
            let id = after.keyspace_heads@[keyspace_id.0].shard_roots@[shard].0;
            let root = before.keyspace_catalog_shards@[id].files@[file_id.0].head.root.0;
            &&& after.keyspace_catalog_shards@.contains_key(id)
            &&& after.keyspace_catalog_shards@[id] == before.keyspace_catalog_shards@[id]
            &&& forall|block: int| #[trigger]
                block_at(after.nodes(), root, block) == block_at(before.nodes(), root, block)
            &&& forall|byte: int| #[trigger]
                run_at(after.nodes(), root, block_size, byte) == run_at(
                    before.nodes(),
                    root,
                    block_size,
                    byte,
                )
        }),
{
    let head = after.keyspace_heads@[keyspace_id.0];
    let id = head.shard_roots@[shard].0;
    let stored = before.keyspace_catalog_shards@[id];
    let root = stored.files@[file_id.0].head.root.0;
    assert(lists_shard(head.shard_roots@, id));
    assert(head.names(NameKind::Shard, id));
    assert(map_names(after.keyspace_heads@, NameKind::Shard, id));
    assert(after.names_shard(id));
    assert(after.keyspace_catalog_shards@.contains_key(id));
    assert(catalog_shard_wf(before.nodes(), stored, block_size, before.next_file_id));
    assert(file_wf(
        before.nodes(),
        stored.files@[file_id.0],
        file_id.0,
        block_size,
        before.next_file_id,
    ));
    assert(after.keyspace_catalog_shards@[id].names(NameKind::Root, root));
    assert(map_names(after.keyspace_catalog_shards@, NameKind::Root, root));
    assert(after.names_root(root));
    assert forall|n: u128| #[trigger] reaches(before.nodes(), root, n) implies
        after.nodes().contains_key(n) && after.nodes()[n] == before.nodes()[n] by {
        lemma_reaches_older(before.nodes(), root, n);
        assert(after.leads_to(before.nodes(), n));
    }
    lemma_kept_below(before.nodes(), after.nodes(), root, block_size);
}

proof fn lemma_epochs_kept(
    epochs: Seq<FileWriterEpoch>,
    of: MetadataInner,
    epoch: FileWriterEpoch,
)
    ensures
        has_row(epochs_kept(epochs, of), epoch) <==> has_row(epochs, epoch) && of.names_file(
            epoch.keyspace_id,
            epoch.file_id.0,
        ),
    decreases epochs.len(),
{
    let kept = epochs_kept(epochs, of);
    if epochs.len() > 0 {
        let fewer = epochs.drop_last();
        let last = epochs.last();
        let less = epochs_kept(fewer, of);
        lemma_epochs_kept(fewer, of, epoch);
        assert(epochs[epochs.len() - 1] == last);
        if has_row(epochs, epoch) && of.names_file(epoch.keyspace_id, epoch.file_id.0) {
            let i = choose|i: int| 0 <= i < epochs.len() && #[trigger] epochs[i] == epoch;
            if i < fewer.len() {
                assert(fewer[i] == epoch);
                let k = choose|k: int| 0 <= k < less.len() && #[trigger] less[k] == epoch;
                assert(kept[k] == epoch);
            } else {
                assert(kept[kept.len() - 1] == epoch);
            }
        }
        if has_row(kept, epoch) {
            let k = choose|k: int| 0 <= k < kept.len() && #[trigger] kept[k] == epoch;
            if k < less.len() {
                assert(less[k] == epoch);
                let i = choose|i: int| 0 <= i < fewer.len() && #[trigger] fewer[i] == epoch;
                assert(epochs[i] == epoch);
            }
        }
    }
}

/// A file that is in an exported catalog keeps its writer epoch, so that a writer
/// from before the export cannot come back; an export makes no epochs up.
pub proof fn law_export_keeps_writer_epochs(
    before: MetadataInner,
    after: MetadataInner,
    target: u64,
    previous: Option<&DurableExportCursor>,
    epoch: FileWriterEpoch,
)
    requires
        exported(before, after, target, previous),
    ensures
        has_row(after.file_writer_epochs@, epoch) ==> has_row(before.file_writer_epochs@, epoch),
        forall|shard: int|
            has_row(before.file_writer_epochs@, epoch) && after.keyspace_heads@.contains_key(
                epoch.keyspace_id.0,
            ) && after.keyspace_heads@[epoch.keyspace_id.0].keyspace_id == epoch.keyspace_id && 0
                <= shard < after.keyspace_heads@[epoch.keyspace_id.0].shard_roots@.len()
                && after.keyspace_catalog_shards@.contains_key(
                (#[trigger] after.keyspace_heads@[epoch.keyspace_id.0].shard_roots@[shard]).0,
            )
                && after.keyspace_catalog_shards@[after.keyspace_heads@[epoch.keyspace_id.0].shard_roots@[shard].0].files@.contains_key(
            epoch.file_id.0) ==> has_row(after.file_writer_epochs@, epoch),
{
    if previous is None {
        lemma_epochs_kept(before.file_writer_epochs@, after, epoch);
        assert forall|shard: int|
            has_row(before.file_writer_epochs@, epoch) && after.keyspace_heads@.contains_key(
                epoch.keyspace_id.0,
            ) && after.keyspace_heads@[epoch.keyspace_id.0].keyspace_id == epoch.keyspace_id && 0
                <= shard < after.keyspace_heads@[epoch.keyspace_id.0].shard_roots@.len()
                && after.keyspace_catalog_shards@.contains_key(
                (#[trigger] after.keyspace_heads@[epoch.keyspace_id.0].shard_roots@[shard]).0,
            )
                && after.keyspace_catalog_shards@[after.keyspace_heads@[epoch.keyspace_id.0].shard_roots@[shard].0].files@.contains_key(
            epoch.file_id.0) implies has_row(after.file_writer_epochs@, epoch) by {
            let head = after.keyspace_heads@[epoch.keyspace_id.0];
            let id = head.shard_roots@[shard].0;
            assert(lists_shard(head.shard_roots@, id));
            assert(head.names(NameKind::ShardOf(epoch.keyspace_id), id));
            assert(map_names(after.keyspace_heads@, NameKind::ShardOf(epoch.keyspace_id), id));
            assert(after.names_shard_of(epoch.keyspace_id, id));
            assert(after.names_file(epoch.keyspace_id, epoch.file_id.0));
        }
    }
}

/// The numbers that an export gives out next are in no use in it, and an earlier
/// export has not given them out either.
pub proof fn law_exported_numbers_are_free(
    before: MetadataInner,
    after: MetadataInner,
    target: u64,
    previous: Option<&DurableExportCursor>,
    id: u128,
)
    requires
        exported(before, after, target, previous),
        target < u64::MAX,
    ensures
        after.device_heads@.contains_key(id) || after.deleted_device_heads@.contains_key(id)
            || after.device_specs@.contains_key(id) ==> id < after.next_device_id,
        after.keyspace_heads@.contains_key(id) ==> id < after.next_keyspace_id,
        after.nodes().contains_key(id) ==> id < after.trees.next_metadata_node_id,
        after.keyspace_roots@.contains_key(id) ==> id < after.next_keyspace_root_id,
        after.keyspace_catalog_shards@.contains_key(id) ==> id
            < after.next_keyspace_catalog_shard_id,
        after.commit_groups@.contains_key(id) ==> id < after.next_commit_group_id,
        after.checkpoints@.contains_key(id) ==> id < after.next_checkpoint_id,
        forall|i: int|
            0 <= i < after.file_writer_epochs@.len() ==> (
            #[trigger] after.file_writer_epochs@[i]).file_id.0 < after.next_file_id,
        after.next_commit_seq > target,
        previous matches Some(cursor) ==> {
            &&& after.next_device_id >= cursor.next_device_id
            &&& after.next_keyspace_id >= cursor.next_keyspace_id
            &&& after.next_file_id >= cursor.next_file_id
            &&& after.trees.next_metadata_node_id >= cursor.next_metadata_node_id
            &&& after.next_keyspace_root_id >= cursor.next_keyspace_root_id
            &&& after.next_keyspace_catalog_shard_id >= cursor.next_keyspace_catalog_shard_id
            &&& after.next_commit_group_id >= cursor.next_commit_group_id
            &&& after.next_checkpoint_id >= cursor.next_checkpoint_id
            &&& after.next_commit_seq >= cursor.next_commit_seq
        },
{
    let devices = after.device_specs@.dom() + after.device_heads@.dom()
        + after.deleted_device_heads@.dom();
    if after.device_heads@.contains_key(id) || after.deleted_device_heads@.contains_key(id)
        || after.device_specs@.contains_key(id) {
        assert(devices.contains(id));
    }
    if after.keyspace_heads@.contains_key(id) {
        assert(after.keyspace_heads@.dom().contains(id));
    }
    if after.nodes().contains_key(id) {
        assert(after.nodes().dom().contains(id));
    }
    if after.keyspace_roots@.contains_key(id) {
        assert(after.keyspace_roots@.dom().contains(id));
    }
    if after.keyspace_catalog_shards@.contains_key(id) {
        assert(after.keyspace_catalog_shards@.dom().contains(id));
    }
    if after.commit_groups@.contains_key(id) {
        assert(after.commit_groups@.dom().contains(id));
    }
    if after.checkpoints@.contains_key(id) {
        assert(after.checkpoints@.dom().contains(id));
    }
    assert forall|i: int| 0 <= i < after.file_writer_epochs@.len() implies (
    #[trigger] after.file_writer_epochs@[i]).file_id.0 < after.next_file_id by {
        assert(epoch_files(after.file_writer_epochs@).contains(
            after.file_writer_epochs@[i].file_id.0,
        ));
    }
}

/// The cursor of a store is past all that the store has: whatever is made after it
/// has a number that the cursor has not come to.
pub proof fn law_cursor_is_past_what_is_there(store: LocalCoordinator, id: u128)
    requires
        store.wf(),
    ensures
        store.metadata.device_heads@.contains_key(id) ==> id
            < store.export_cursor().next_device_id,
        store.metadata.keyspace_heads@.contains_key(id) ==> id
            < store.export_cursor().next_keyspace_id,
        store.metadata.keyspace_roots@.contains_key(id) ==> id
            < store.export_cursor().next_keyspace_root_id,
        store.metadata.keyspace_catalog_shards@.contains_key(id) ==> id
            < store.export_cursor().next_keyspace_catalog_shard_id,
        store.nodes().contains_key(id) ==> id < store.export_cursor().next_metadata_node_id,
        store.segments().contains_key(id) ==> id < store.export_cursor().next_segment_id,
        forall|shard: u128| #[trigger]
            store.metadata.keyspace_catalog_shards@.contains_key(shard)
                && store.metadata.keyspace_catalog_shards@[shard].files@.contains_key(id) ==> id
                < store.export_cursor().next_file_id,
        store.export_cursor().config == store.config,
        store.export_cursor().next_commit_seq == store.metadata.next_commit_seq,
        store.export_cursor().next_commit_group_id == store.metadata.next_commit_group_id,
        store.export_cursor().next_checkpoint_id == store.metadata.next_checkpoint_id,
        store.export_cursor().next_gc_epoch == store.metadata.next_gc_epoch,
{
    let block_size = store.block_size();
    assert(store.metadata.devices_wf(block_size));
    assert(store.metadata.files_wf(block_size));
    assert(store.storage_nodes.wf(block_size));
    assert forall|shard: u128| #[trigger]
        store.metadata.keyspace_catalog_shards@.contains_key(shard)
            && store.metadata.keyspace_catalog_shards@[shard].files@.contains_key(id) implies id
        < store.export_cursor().next_file_id by {
        let stored = store.metadata.keyspace_catalog_shards@[shard];
        assert(catalog_shard_wf(store.nodes(), stored, block_size, store.metadata.next_file_id));
        assert(file_wf(
            store.nodes(),
            stored.files@[id],
            id,
            block_size,
            store.metadata.next_file_id,
        ));
    }
    if store.nodes().contains_key(id) {
        assert(crate::tree::node_wf(store.nodes(), id, block_size));
    }
}

/// No commit on a device or a keyspace up to a point, be it a write, a fork, a delete
/// or a checkpoint, comes after the latest that is told of it, and that one is not
/// past the point.
pub proof fn law_latest_commit_is_not_passed(
    metadata: MetadataInner,
    device_id: DeviceId,
    keyspace_id: KeyspaceId,
    at: u64,
    latest: u64,
    latest_in_keyspace: u64,
    i: int,
    id: u128,
)
    requires
        metadata.is_latest(MappingOwner::BlockDevice(device_id), at, latest),
        metadata.is_latest(MappingOwner::NativeKeyspace(keyspace_id), at, latest_in_keyspace),
    ensures
        latest <= at,
        latest_in_keyspace <= at,
        0 <= i < metadata.shard_commits@.len() && metadata.shard_commits@[i].device_id == device_id
            && metadata.shard_commits@[i].commit_seq.0 <= at
            ==> metadata.shard_commits@[i].commit_seq.0 <= latest,
        metadata.fork_records@.contains_key(id) && metadata.fork_records@[id].target == device_id
            && metadata.fork_records@[id].commit_seq.0 <= at
            ==> metadata.fork_records@[id].commit_seq.0 <= latest,
        metadata.delete_records@.contains_key(id) && metadata.delete_records@[id].device_id
            == device_id && metadata.delete_records@[id].commit_seq.0 <= at
            ==> metadata.delete_records@[id].commit_seq.0 <= latest,
        metadata.checkpoints@.contains_key(id) && metadata.checkpoints@[id].owner
            == MappingOwner::BlockDevice(device_id) && metadata.checkpoints@[id].commit_seq.0 <= at
            ==> metadata.checkpoints@[id].commit_seq.0 <= latest,
        0 <= i < metadata.keyspace_commits@.len() && metadata.keyspace_commits@[i].keyspace_id
            == keyspace_id && metadata.keyspace_commits@[i].commit_seq.0 <= at
            ==> metadata.keyspace_commits@[i].commit_seq.0 <= latest_in_keyspace,
        metadata.checkpoints@.contains_key(id) && metadata.checkpoints@[id].owner
            == MappingOwner::NativeKeyspace(keyspace_id) && metadata.checkpoints@[id].commit_seq.0
            <= at ==> metadata.checkpoints@[id].commit_seq.0 <= latest_in_keyspace,
{
    let device = MappingOwner::BlockDevice(device_id);
    let keyspace = MappingOwner::NativeKeyspace(keyspace_id);
    if 0 <= i < metadata.shard_commits@.len() && metadata.shard_commits@[i].device_id == device_id
        && metadata.shard_commits@[i].commit_seq.0 <= at {
        let commit = metadata.shard_commits@[i];
        assert(metadata.shard_commits@[i].about(device));
        assert(metadata.commit_about(device, at, commit.commit_seq.0));
    }
    if metadata.fork_records@.contains_key(id) && metadata.fork_records@[id].target == device_id
        && metadata.fork_records@[id].commit_seq.0 <= at {
        assert(metadata.fork_records@[id].about(device));
        assert(metadata.commit_about(device, at, metadata.fork_records@[id].commit_seq.0));
    }
    if metadata.delete_records@.contains_key(id) && metadata.delete_records@[id].device_id
        == device_id && metadata.delete_records@[id].commit_seq.0 <= at {
        assert(metadata.delete_records@[id].about(device));
        assert(metadata.commit_about(device, at, metadata.delete_records@[id].commit_seq.0));
    }
    if metadata.checkpoints@.contains_key(id) && metadata.checkpoints@[id].commit_seq.0 <= at {
        let checkpoint = metadata.checkpoints@[id];
        if checkpoint.owner == device {
            assert(checkpoint.about(device));
            assert(metadata.commit_about(device, at, checkpoint.commit_seq.0));
        }
        if checkpoint.owner == keyspace {
            assert(checkpoint.about(keyspace));
            assert(metadata.commit_about(keyspace, at, checkpoint.commit_seq.0));
        }
    }
    if 0 <= i < metadata.keyspace_commits@.len() && metadata.keyspace_commits@[i].keyspace_id
        == keyspace_id && metadata.keyspace_commits@[i].commit_seq.0 <= at {
        assert(metadata.keyspace_commits@[i].about(keyspace));
        assert(metadata.commit_about(
            keyspace,
            at,
            metadata.keyspace_commits@[i].commit_seq.0,
        ));
    }
}

} // verus!
