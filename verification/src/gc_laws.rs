//! What garbage collection leaves: every point of the kept history can be restored,
//! and reads as before.
use vstd::prelude::*;

use crate::backing::{
    lemma_block_stored, lemma_device_block_stored, lemma_run_logged, lemma_stored_byte_kept,
};
use crate::block_api::RestorePoint;
use crate::coordinator::{LocalCoordinator, lemma_block_of_byte, segment_byte};
use crate::custodian::{Disposal, given_up, lists_given_up, lists_unnamed, node_place};
use crate::device_history::roots_at;
use crate::device_trees::{device_block_at, lemma_device_kept_below};
use crate::export_laws::{has_row, law_rows_between_are_kept};
use crate::export_rows::{
    NameKind, Names, OfCommit, between, list_names, lists_node, lists_shard, map_names,
    map_names_from,
};
use crate::export_state::any_node_names;
use crate::file_read::tree_byte;
use crate::gc::{MetadataMarkReport, marks_set};
use crate::id::{
    DeviceId, FileId, KeyspaceCatalogShardId, KeyspaceId, MetadataNodeId, SegmentId, StorageNodeId,
    WriteIntentId,
};
use crate::keyspace_history::{catalog_at, commits_fit, count_at};
use crate::metadata::{
    MetadataInner, catalog_roots_wf, catalog_shard_wf, checkpoint_wf, file_wf, shard_commit_wf,
};
use crate::metadata_files::{catalog_head, catalog_index};
use crate::metadata_records::{
    Checkpoint, CheckpointRoots, KeyspaceCommit, LeafEntry, MetadataNode, MetadataNodeKind,
    RootUpdate, ShardCommit,
};
use crate::reach::{lemma_kept_below, node_names, reaches};
use crate::segment_records::SegmentLifecycleState;
use crate::storage_nodes::{SegmentRecord, StorageNodeRegistry, keeps_segments};
use crate::tree::{block_at, run_at};

verus! {

/// Dropping commits from before a point leaves the catalog at every later point.
proof fn lemma_catalog_between(
    roots: Seq<KeyspaceCatalogShardId>,
    count: usize,
    commits: Seq<KeyspaceCommit>,
    keyspace_id: KeyspaceId,
    from: u64,
    at: u64,
)
    requires
        from <= at,
    ensures
        catalog_at(roots, between(commits, from, u64::MAX), keyspace_id, at) == catalog_at(
            roots,
            commits,
            keyspace_id,
            at,
        ),
        count_at(count, between(commits, from, u64::MAX), keyspace_id, at) == count_at(
            count,
            commits,
            keyspace_id,
            at,
        ),
    decreases commits.len(),
{
    if commits.len() > 0 {
        let last = commits.last();
        let fewer = commits.drop_last();
        let kept = between(commits, from, u64::MAX);
        let less = between(fewer, from, u64::MAX);
        if from <= last.seq_of() {
            assert(kept.drop_last() =~= less);
            assert(kept.last() == last);
            let undo = last.keyspace_id == keyspace_id && last.commit_seq.0 > at;
            let undone = if undo {
                roots.update(last.shard_index as int, last.old_shard)
            } else {
                roots
            };
            let left = if undo {
                last.old_file_count
            } else {
                count
            };
            lemma_catalog_between(undone, left, fewer, keyspace_id, from, at);
        } else {
            lemma_catalog_between(roots, count, fewer, keyspace_id, from, at);
        }
    }
}

/// Dropping commits from before a point leaves a device's roots at every later point.
proof fn lemma_roots_between(
    roots: Seq<MetadataNodeId>,
    commits: Seq<ShardCommit>,
    device_id: DeviceId,
    from: u64,
    at: u64,
)
    requires
        from <= at,
    ensures
        roots_at(roots, between(commits, from, u64::MAX), device_id, at) == roots_at(
            roots,
            commits,
            device_id,
            at,
        ),
    decreases commits.len(),
{
    if commits.len() > 0 {
        let last = commits.last();
        let fewer = commits.drop_last();
        let kept = between(commits, from, u64::MAX);
        if from <= last.seq_of() {
            assert(kept.drop_last() =~= between(fewer, from, u64::MAX));
            assert(kept.last() == last);
            let undone = if last.device_id == device_id && last.commit_seq.0 > at {
                roots.update(last.shard_id.0 as int, last.old_root)
            } else {
                roots
            };
            lemma_roots_between(undone, fewer, device_id, from, at);
        } else {
            lemma_roots_between(roots, fewer, device_id, from, at);
        }
    }
}

/// A row from a point on is among those that are kept.
proof fn lemma_between_has<T: OfCommit>(rows: Seq<T>, from: u64, i: int)
    requires
        0 <= i < rows.len(),
        rows[i].seq_of() >= from,
    ensures
        between(rows, from, u64::MAX).contains(rows[i]),
    decreases rows.len(),
{
    let fewer = rows.drop_last();
    let (less, kept) = (between(fewer, from, u64::MAX), between(rows, from, u64::MAX));
    if i < fewer.len() {
        assert(fewer[i] == rows[i]);
        lemma_between_has(fewer, from, i);
        let k = less.index_of(rows[i]);
        assert(kept[k] == rows[i]);
    } else {
        assert(kept[kept.len() - 1] == rows[i]);
    }
}

/// Fewer commits fit where more do.
proof fn lemma_fit_before(
    commits: Seq<KeyspaceCommit>,
    keyspace_id: KeyspaceId,
    at: u64,
    shards: int,
)
    requires
        commits.len() > 0,
        commits_fit(commits, keyspace_id, at, shards),
    ensures
        commits_fit(commits.drop_last(), keyspace_id, at, shards),
        commits.last().keyspace_id == keyspace_id && commits.last().commit_seq.0 > at
            ==> commits.last().shard_index < shards,
{
    let fewer = commits.drop_last();
    assert(commits[commits.len() - 1] == commits.last());
    assert forall|i: int|
        0 <= i < fewer.len() && (#[trigger] fewer[i]).keyspace_id == keyspace_id
            && fewer[i].commit_seq.0 > at implies fewer[i].shard_index < shards by {
        assert(commits[i] == fewer[i]);
    }
}

/// Whether the later commits of a device are on shards that it has.
spec fn shards_fit(commits: Seq<ShardCommit>, device_id: DeviceId, at: u64, shards: int) -> bool {
    forall|i: int|
        0 <= i < commits.len() && (#[trigger] commits[i]).device_id == device_id
            && commits[i].commit_seq.0 > at ==> commits[i].shard_id.0 < shards
}

proof fn lemma_shards_fit_before(
    commits: Seq<ShardCommit>,
    device_id: DeviceId,
    at: u64,
    shards: int,
)
    requires
        commits.len() > 0,
        shards_fit(commits, device_id, at, shards),
    ensures
        shards_fit(commits.drop_last(), device_id, at, shards),
        commits.last().device_id == device_id && commits.last().commit_seq.0 > at
            ==> commits.last().shard_id.0 < shards,
{
    let fewer = commits.drop_last();
    assert(commits[commits.len() - 1] == commits.last());
    assert forall|i: int|
        0 <= i < fewer.len() && (#[trigger] fewer[i]).device_id == device_id
            && fewer[i].commit_seq.0 > at implies fewer[i].shard_id.0 < shards by {
        assert(commits[i] == fewer[i]);
    }
}

/// A catalog of the past is made of shards of the catalog that it is taken back from
/// and of shards that later commits replaced.
proof fn lemma_catalog_shards(
    roots: Seq<KeyspaceCatalogShardId>,
    commits: Seq<KeyspaceCommit>,
    keyspace_id: KeyspaceId,
    at: u64,
    s: int,
)
    requires
        0 <= s < roots.len(),
        commits_fit(commits, keyspace_id, at, roots.len() as int),
    ensures
        catalog_at(roots, commits, keyspace_id, at).len() == roots.len(),
        catalog_at(roots, commits, keyspace_id, at)[s] == roots[s] || exists|i: int|
            0 <= i < commits.len() && (#[trigger] commits[i]).commit_seq.0 > at && commits[i].old_shard
                == catalog_at(roots, commits, keyspace_id, at)[s],
    decreases commits.len(),
{
    if commits.len() > 0 {
        let last = commits.last();
        let fewer = commits.drop_last();
        let undo = last.keyspace_id == keyspace_id && last.commit_seq.0 > at;
        let undone = if undo {
            roots.update(last.shard_index as int, last.old_shard)
        } else {
            roots
        };
        lemma_fit_before(commits, keyspace_id, at, roots.len() as int);
        lemma_catalog_shards(undone, fewer, keyspace_id, at, s);
        let held = catalog_at(roots, commits, keyspace_id, at)[s];
        if held != roots[s] {
            if held == undone[s] {
                assert(commits[commits.len() - 1].old_shard == held);
            } else {
                let i = choose|i: int|
                    0 <= i < fewer.len() && (#[trigger] fewer[i]).commit_seq.0 > at
                        && fewer[i].old_shard == held;
                assert(commits[i] == fewer[i]);
            }
        }
    }
}

/// The roots of the past of a device are roots that it is taken back from and roots
/// that later commits replaced.
proof fn lemma_device_roots(
    roots: Seq<MetadataNodeId>,
    commits: Seq<ShardCommit>,
    device_id: DeviceId,
    at: u64,
    s: int,
)
    requires
        0 <= s < roots.len(),
        shards_fit(commits, device_id, at, roots.len() as int),
    ensures
        roots_at(roots, commits, device_id, at).len() == roots.len(),
        roots_at(roots, commits, device_id, at)[s] == roots[s] || exists|i: int|
            0 <= i < commits.len() && (#[trigger] commits[i]).commit_seq.0 > at && commits[i].old_root
                == roots_at(roots, commits, device_id, at)[s],
    decreases commits.len(),
{
    if commits.len() > 0 {
        let last = commits.last();
        let fewer = commits.drop_last();
        let undone = if last.device_id == device_id && last.commit_seq.0 > at {
            roots.update(last.shard_id.0 as int, last.old_root)
        } else {
            roots
        };
        lemma_shards_fit_before(commits, device_id, at, roots.len() as int);
        lemma_device_roots(undone, fewer, device_id, at, s);
        let held = roots_at(roots, commits, device_id, at)[s];
        if held != roots[s] {
            if held == undone[s] {
                assert(commits[commits.len() - 1].old_root == held);
            } else {
                let i = choose|i: int|
                    0 <= i < fewer.len() && (#[trigger] fewer[i]).commit_seq.0 > at
                        && fewer[i].old_root == held;
                assert(commits[i] == fewer[i]);
            }
        }
    }
}

/// The commit from which on a point needs history; a checkpoint needs none.
pub open spec fn point_since(point: RestorePoint, from: u64) -> bool {
    match point {
        RestorePoint::Commit(seq) => seq.0 >= from,
        RestorePoint::Time(time) => time.0 >= from,
        RestorePoint::Checkpoint(_) => true,
    }
}

/// Every shard of a catalog at a kept point is still needed.
proof fn lemma_point_shards_needed(
    metadata: MetadataInner,
    from: u64,
    keyspace_id: KeyspaceId,
    point: RestorePoint,
    s: int,
)
    requires
        metadata.has_keyspace_point(keyspace_id, point),
        point_since(point, from),
        0 <= s < metadata.catalog_at_point(keyspace_id, point).len(),
    ensures
        metadata.needs_shard(from, metadata.catalog_at_point(keyspace_id, point)[s].0),
{
    let shard = metadata.catalog_at_point(keyspace_id, point)[s].0;
    match point {
        RestorePoint::Checkpoint(id) => {
            let root = (metadata.checkpoints@[id.0].roots->NativeKeyspace_0).0;
            assert(metadata.keyspace_roots@.contains_key(root));
            assert(lists_shard(metadata.keyspace_roots@[root].shard_roots@, shard));
            assert(metadata.keyspace_roots@[root].names(NameKind::Shard, shard));
        },
        _ => {
            let at = MetadataInner::commit_of_point(point)->0;
            let roots = metadata.catalog_of(keyspace_id);
            assert(metadata.keyspace_heads@.contains_key(keyspace_id.0));
            lemma_catalog_at_len(roots, metadata.keyspace_commits@, keyspace_id, at);
            lemma_catalog_shards(roots, metadata.keyspace_commits@, keyspace_id, at, s);
            if shard == roots[s].0 {
                assert(lists_shard(roots, shard));
                assert(metadata.keyspace_heads@[keyspace_id.0].names(NameKind::Shard, shard));
            } else {
                let i = choose|i: int|
                    0 <= i < metadata.keyspace_commits@.len() && (
                    #[trigger] metadata.keyspace_commits@[i]).commit_seq.0 > at
                        && metadata.keyspace_commits@[i].old_shard.0 == shard;
                let commit = metadata.keyspace_commits@[i];
                lemma_between_has(metadata.keyspace_commits@, from, i);
                let kept = between(metadata.keyspace_commits@, from, u64::MAX);
                let k = kept.index_of(commit);
                assert(kept[k].names(NameKind::Shard, shard));
            }
        },
    }
}

proof fn lemma_catalog_at_len(
    roots: Seq<KeyspaceCatalogShardId>,
    commits: Seq<KeyspaceCommit>,
    keyspace_id: KeyspaceId,
    at: u64,
)
    requires
        commits_fit(commits, keyspace_id, at, roots.len() as int),
    ensures
        catalog_at(roots, commits, keyspace_id, at).len() == roots.len(),
    decreases commits.len(),
{
    if commits.len() > 0 {
        let last = commits.last();
        let undone = if last.keyspace_id == keyspace_id && last.commit_seq.0 > at {
            roots.update(last.shard_index as int, last.old_shard)
        } else {
            roots
        };
        lemma_fit_before(commits, keyspace_id, at, roots.len() as int);
        lemma_catalog_at_len(undone, commits.drop_last(), keyspace_id, at);
    }
}

/// A sweep leaves every keyspace with all points of the kept history: a point that
/// could be restored can be restored, to the same catalog, the same number of files
/// and the same files, and these lead to nodes that are all there.
pub proof fn law_sweep_keeps_keyspace_points(
    before: MetadataInner,
    after: MetadataInner,
    from: u64,
    block_size: u64,
    keyspace_id: KeyspaceId,
    point: RestorePoint,
    file_id: FileId,
)
    requires
        before.files_wf(block_size),
        after.swept_from(&before, from),
        before.has_keyspace_point(keyspace_id, point),
        point_since(point, from),
    ensures
        after.has_keyspace_point(keyspace_id, point),
        after.catalog_at_point(keyspace_id, point) == before.catalog_at_point(keyspace_id, point),
        after.count_at_point(keyspace_id, point) == before.count_at_point(keyspace_id, point),
        catalog_head(
            after.keyspace_catalog_shards@,
            after.catalog_at_point(keyspace_id, point),
            file_id,
        ) == catalog_head(
            before.keyspace_catalog_shards@,
            before.catalog_at_point(keyspace_id, point),
            file_id,
        ),
        catalog_head(
            before.keyspace_catalog_shards@,
            before.catalog_at_point(keyspace_id, point),
            file_id,
        ) matches Some(head) ==> before.needs_root(from, head.root.0) && before.nodes().contains_key(
            head.root.0,
        ),
{
    let roots = before.catalog_at_point(keyspace_id, point);
    let shards = before.keyspace_catalog_shards@;
    match point {
        RestorePoint::Checkpoint(id) => {
            let root = (before.checkpoints@[id.0].roots->NativeKeyspace_0).0;
            assert(before.keyspace_roots@.contains_key(root));
            assert(catalog_roots_wf(shards, roots));
        },
        _ => {
            let at = MetadataInner::commit_of_point(point)->0;
            let current = before.catalog_of(keyspace_id);
            lemma_catalog_between(
                current,
                before.keyspace_heads@[keyspace_id.0].file_count,
                before.keyspace_commits@,
                keyspace_id,
                from,
                at,
            );
            lemma_commits_fit(before.keyspace_commits@, keyspace_id, from, at, current.len() as int);
        },
    }
    assert forall|s: int| 0 <= s < roots.len() implies
        after.keyspace_catalog_shards@.contains_key((#[trigger] roots[s]).0)
        && after.keyspace_catalog_shards@[roots[s].0] == shards[roots[s].0]
        && before.needs_shard(from, roots[s].0) by {
        lemma_point_shards_needed(before, from, keyspace_id, point, s);
        assert(catalog_roots_wf(shards, roots));
        let id = roots[s].0;
        assert(shards.contains_key(id));
        assert(before.needs_shard(from, id));
        assert(after.keyspace_catalog_shards@.contains_key(id));
    }
    let s = catalog_index(file_id, roots.len() as int);
    let shard = roots[s].0;
    assert(shards.contains_key(shard));
    if let Some(head) = catalog_head(shards, roots, file_id) {
        assert(shards[shard].files@.contains_key(file_id.0));
        assert(shards[shard].names(NameKind::Root, head.root.0));
        assert(before.needed_shard_names(from, head.root.0));
        assert(catalog_shard_wf(before.nodes(), shards[shard], block_size, before.next_file_id));
        assert(file_wf(
            before.nodes(),
            shards[shard].files@[file_id.0],
            file_id.0,
            block_size,
            before.next_file_id,
        ));
    }
}

/// The kept commits of a keyspace fit where all of them do.
proof fn lemma_commits_fit(
    commits: Seq<KeyspaceCommit>,
    keyspace_id: KeyspaceId,
    from: u64,
    at: u64,
    shards: int,
)
    requires
        commits_fit(commits, keyspace_id, at, shards),
    ensures
        commits_fit(between(commits, from, u64::MAX), keyspace_id, at, shards),
{
    let kept = between(commits, from, u64::MAX);
    assert forall|i: int|
        0 <= i < kept.len() && (#[trigger] kept[i]).keyspace_id == keyspace_id
            && kept[i].commit_seq.0 > at implies kept[i].shard_index < shards by {
        lemma_between_from(commits, from, i);
        let k = commits.index_of(kept[i]);
        assert(commits[k] == kept[i]);
    }
}

proof fn lemma_between_from<T: OfCommit>(rows: Seq<T>, from: u64, i: int)
    requires
        0 <= i < between(rows, from, u64::MAX).len(),
    ensures
        rows.contains(between(rows, from, u64::MAX)[i]),
        between(rows, from, u64::MAX)[i].seq_of() >= from,
    decreases rows.len(),
{
    let fewer = rows.drop_last();
    let (less, kept) = (between(fewer, from, u64::MAX), between(rows, from, u64::MAX));
    if i < less.len() {
        lemma_between_from(fewer, from, i);
        let k = fewer.index_of(less[i]);
        assert(rows[k] == kept[i]);
    } else {
        assert(rows[rows.len() - 1] == kept[i]);
    }
}

/// A sweep leaves every device with all points of the kept history: a point that could
/// be restored can be restored, to the same roots, and these lead to the same blocks.
/// A device that was deleted stays as long as its deletion is kept.
pub proof fn law_sweep_keeps_device_points(
    before: MetadataInner,
    after: MetadataInner,
    from: u64,
    block_size: u64,
    device_id: DeviceId,
    point: RestorePoint,
)
    requires
        before.devices_wf(block_size),
        after.swept_from(&before, from),
        before.has_point(device_id, point),
        point_since(point, from),
        before.has_device(device_id) || point is Checkpoint
            || before.deleted_device_heads@[device_id.0].latest_commit.0 >= from,
    ensures
        after.has_point(device_id, point),
        after.roots_at_point(device_id, point) == before.roots_at_point(device_id, point),
        forall|block: int|
            0 <= block < before.blocks_of(device_id) ==> #[trigger] device_block_at(
                after.nodes(),
                before.roots_at_point(device_id, point),
                block,
            ) == device_block_at(
                before.nodes(),
                before.roots_at_point(device_id, point),
                block,
            ),
{
    let roots = before.roots_at_point(device_id, point);
    match point {
        RestorePoint::Checkpoint(id) => {
            let checkpoint = before.checkpoints@[id.0];
            assert(checkpoint_wf(
                before.nodes(),
                before.device_specs@,
                checkpoint,
                block_size,
            ));
            assert forall|s: int| 0 <= s < roots.len() implies before.needs_root(
                from,
                (#[trigger] roots[s]).0,
            ) by {
                assert(lists_node(roots, roots[s].0));
                assert(checkpoint.names(NameKind::Root, roots[s].0));
                assert(before.checkpoints@.contains_key(id.0));
            }
        },
        _ => {
            let at = MetadataInner::commit_of_point(point)->0;
            let current = before.any_roots_of(device_id);
            lemma_roots_between(current, before.shard_commits@, device_id, from, at);
            before.lemma_roots_then(device_id, at, block_size);
            if after.forked_after(device_id, at) {
                let id = choose|id: u128| #[trigger]
                    after.fork_records@.contains_key(id) && after.fork_records@[id].target
                        == device_id && after.fork_records@[id].commit_seq.0 > at;
                assert(before.fork_records@.contains_key(id));
            }
            if !before.has_device(device_id) {
                assert(before.deleted_device_heads@.contains_key(device_id.0));
                assert(after.deleted_device_heads@.contains_key(device_id.0));
            }
            assert(shards_fit(before.shard_commits@, device_id, at, current.len() as int)) by {
                assert forall|i: int|
                    0 <= i < before.shard_commits@.len() && (
                    #[trigger] before.shard_commits@[i]).device_id == device_id
                        && before.shard_commits@[i].commit_seq.0 > at implies
                    before.shard_commits@[i].shard_id.0 < current.len() by {
                    assert(shard_commit_wf(
                        before.nodes(),
                        before.device_heads@,
                        before.shard_commits@[i],
                    ));
                    assert(shard_commit_wf(
                        before.nodes(),
                        before.deleted_device_heads@,
                        before.shard_commits@[i],
                    ));
                }
            }
            lemma_roots_at_len(current, before.shard_commits@, device_id, at);
            assert forall|s: int| 0 <= s < roots.len() implies before.needs_root(
                from,
                (#[trigger] roots[s]).0,
            ) by {
                let root = roots[s].0;
                lemma_device_roots(current, before.shard_commits@, device_id, at, s);
                if roots[s] == current[s] {
                    assert(lists_node(current, root));
                    if before.has_device(device_id) {
                        assert(before.device_heads@.contains_key(device_id.0));
                        assert(before.device_heads@[device_id.0].names(NameKind::Root, root));
                    } else {
                        assert(before.deleted_device_heads@[device_id.0].names(
                            NameKind::Root,
                            root,
                        ));
                    }
                } else {
                    let i = choose|i: int|
                        0 <= i < before.shard_commits@.len() && (
                        #[trigger] before.shard_commits@[i]).commit_seq.0 > at
                            && before.shard_commits@[i].old_root == roots[s];
                    let commit = before.shard_commits@[i];
                    lemma_between_has(before.shard_commits@, from, i);
                    let kept = between(before.shard_commits@, from, u64::MAX);
                    let k = kept.index_of(commit);
                    assert(kept[k].names(NameKind::Root, root));
                }
            }
        },
    }
    assert forall|s: int, n: u128|
        #![trigger roots[s], reaches(before.nodes(), roots[s].0, n)]
        0 <= s < roots.len() && reaches(before.nodes(), roots[s].0, n) implies
        after.nodes().contains_key(n) && after.nodes()[n] == before.nodes()[n] by {
        assert(before.needs_root(from, roots[s].0));
        assert(before.needs_node(from, n));
    }
    lemma_device_kept_below(
        before.nodes(),
        after.nodes(),
        block_size,
        roots,
        before.blocks_of(device_id),
    );
}

proof fn lemma_roots_at_len(
    roots: Seq<MetadataNodeId>,
    commits: Seq<ShardCommit>,
    device_id: DeviceId,
    at: u64,
)
    requires
        shards_fit(commits, device_id, at, roots.len() as int),
    ensures
        roots_at(roots, commits, device_id, at).len() == roots.len(),
    decreases commits.len(),
{
    if commits.len() > 0 {
        let last = commits.last();
        let undone = if last.device_id == device_id && last.commit_seq.0 > at {
            roots.update(last.shard_id.0 as int, last.old_root)
        } else {
            roots
        };
        lemma_shards_fit_before(commits, device_id, at, roots.len() as int);
        lemma_roots_at_len(undone, commits.drop_last(), device_id, at);
    }
}

/// A state from before a run of the custodian, with the marks that the run left.
pub open spec fn with_marks_of(before: MetadataInner, after: MetadataInner) -> MetadataInner {
    MetadataInner {
        metadata_last_mark_epoch: after.metadata_last_mark_epoch,
        segment_last_mark_epoch: after.segment_last_mark_epoch,
        next_gc_epoch: after.next_gc_epoch,
        ..before
    }
}

/// After a run of the custodian a keyspace can be restored at every point of the kept
/// history at which it could be before, and each file of it then reads as it would
/// have read before the run.
pub proof fn law_collected_keyspace_restores_alike(
    before: LocalCoordinator,
    after: LocalCoordinator,
    from: u64,
    keyspace_id: KeyspaceId,
    point: RestorePoint,
    file_id: FileId,
    byte: int,
)
    requires
        before.wf(),
        after.wf(),
        after.config == before.config,
        after.metadata.custodian_ran_from(&before.metadata, from),
        keeps_segments(before.segments(), after.segments()),
        forall|key: (StorageNodeId, u64)| #[trigger]
            after.logs().contains_key(key) ==> after.logs()[key] == before.logs()[key],
        before.metadata.has_keyspace_point(keyspace_id, point),
        point_since(point, from),
    ensures
        after.metadata.has_keyspace_point(keyspace_id, point),
        after.metadata.catalog_at_point(keyspace_id, point) == before.metadata.catalog_at_point(
            keyspace_id,
            point,
        ),
        after.metadata.count_at_point(keyspace_id, point) == before.metadata.count_at_point(
            keyspace_id,
            point,
        ),
        catalog_head(
            after.metadata.keyspace_catalog_shards@,
            after.metadata.catalog_at_point(keyspace_id, point),
            file_id,
        ) == catalog_head(
            before.metadata.keyspace_catalog_shards@,
            before.metadata.catalog_at_point(keyspace_id, point),
            file_id,
        ),
        catalog_head(
            before.metadata.keyspace_catalog_shards@,
            before.metadata.catalog_at_point(keyspace_id, point),
            file_id,
        ) matches Some(head) ==> tree_byte(
            after.nodes(),
            after.segments(),
            after.logs(),
            head.root,
            after.block_size(),
            byte,
        ) == tree_byte(
            before.nodes(),
            before.segments(),
            before.logs(),
            head.root,
            before.block_size(),
            byte,
        ),
{
    let bs = before.block_size();
    let base = with_marks_of(before.metadata, after.metadata);
    assert(base.files_wf(bs));
    assert(base.has_keyspace_point(keyspace_id, point));
    assert(base.catalog_at_point(keyspace_id, point) == before.metadata.catalog_at_point(
        keyspace_id,
        point,
    ));
    assert(base.count_at_point(keyspace_id, point) == before.metadata.count_at_point(
        keyspace_id,
        point,
    ));
    law_sweep_keeps_keyspace_points(
        base,
        after.metadata,
        from,
        bs,
        keyspace_id,
        point,
        file_id,
    );
    if let Some(head) = catalog_head(
        before.metadata.keyspace_catalog_shards@,
        before.metadata.catalog_at_point(keyspace_id, point),
        file_id,
    ) {
        let root = head.root;
        assert forall|n: u128| #[trigger] reaches(before.nodes(), root.0, n) implies
            after.nodes().contains_key(n) && after.nodes()[n] == before.nodes()[n] by {
            assert(base.needs_root(from, root.0));
            assert(base.needs_node(from, n));
        }
        lemma_kept_below(before.nodes(), after.nodes(), root.0, bs);
        let logged = run_at(before.nodes(), root.0, bs, byte);
        if logged is Some {
            assert(run_at(after.nodes(), root.0, bs, byte) == logged);
            lemma_run_logged(after.nodes(), after.logs(), root.0, bs, byte);
        } else {
            let held = block_at(before.nodes(), root.0, byte / bs as int);
            if held is Some {
                lemma_block_stored(before.nodes(), before.segments(), root.0, byte / bs as int);
            }
            lemma_stored_byte_kept(before.segments(), after.segments(), held, bs, byte);
        }
    }
}

/// After a run of the custodian a device can be restored at every point of the kept
/// history at which it could be before, and then reads as it would have read before
/// the run.
pub proof fn law_collected_device_restores_alike(
    before: LocalCoordinator,
    after: LocalCoordinator,
    from: u64,
    device_id: DeviceId,
    point: RestorePoint,
    byte: int,
)
    requires
        before.wf(),
        after.wf(),
        after.config == before.config,
        after.metadata.custodian_ran_from(&before.metadata, from),
        keeps_segments(before.segments(), after.segments()),
        before.metadata.has_point(device_id, point),
        point_since(point, from),
        before.metadata.has_device(device_id) || point is Checkpoint
            || before.metadata.deleted_device_heads@[device_id.0].latest_commit.0 >= from,
        0 <= byte < before.device_bytes(device_id),
    ensures
        after.metadata.has_point(device_id, point),
        after.metadata.roots_at_point(device_id, point) == before.metadata.roots_at_point(
            device_id,
            point,
        ),
        segment_byte(
            after.segments(),
            device_block_at(
                after.nodes(),
                after.metadata.roots_at_point(device_id, point),
                byte / after.block_size() as int,
            ),
            after.block_size(),
            byte,
        ) == segment_byte(
            before.segments(),
            device_block_at(
                before.nodes(),
                before.metadata.roots_at_point(device_id, point),
                byte / before.block_size() as int,
            ),
            before.block_size(),
            byte,
        ),
{
    let bs = before.block_size();
    let base = with_marks_of(before.metadata, after.metadata);
    assert(base.devices_wf(bs));
    assert forall|at: u64| #[trigger] base.forked_after(device_id, at)
        == before.metadata.forked_after(device_id, at) by {}
    assert(base.has_point(device_id, point));
    let roots = before.metadata.roots_at_point(device_id, point);
    assert(base.roots_at_point(device_id, point) == roots);
    law_sweep_keeps_device_points(base, after.metadata, from, bs, device_id, point);
    let block = byte / bs as int;
    lemma_block_of_byte(byte, before.metadata.blocks_of(device_id), bs);
    assert(device_block_at(after.nodes(), roots, block) == device_block_at(
        before.nodes(),
        roots,
        block,
    ));
    let held = device_block_at(before.nodes(), roots, block);
    if held is Some {
        lemma_device_block_stored(before.nodes(), before.segments(), roots, block);
    }
    lemma_stored_byte_kept(before.segments(), after.segments(), held, bs, byte);
}

/// A segment that a leaf still maps is not given up, nor one that is referenced,
/// nor one whose write may still be going on.
pub proof fn law_needed_segments_are_not_given_up(
    list: Seq<SegmentId>,
    segments: Map<u128, SegmentRecord>,
    node_ids: Seq<StorageNodeId>,
    nodes: Map<u128, MetadataNode>,
    expired: Seq<WriteIntentId>,
    why: Disposal,
    id: u128,
)
    requires
        lists_given_up(list, segments, node_ids, nodes, expired, why),
        list.contains(SegmentId(id)),
    ensures
        segments.contains_key(id),
        forall|n: u128, e: int|
            nodes.contains_key(n) && 0 <= e < #[trigger] leaf_entries(nodes[n]).len()
                ==> #[trigger] leaf_entries(nodes[n])[e].segment_id.0 != id,
        segments[id].entry.state != SegmentLifecycleState::Referenced,
        segments[id].entry.state != SegmentLifecycleState::Freed,
        segments[id].entry.state != SegmentLifecycleState::Released ==> expired.contains(
            segments[id].entry.intent.write_intent,
        ),
{
    assert(given_up(segments, nodes, expired, why, id));
    assert forall|n: u128, e: int|
        nodes.contains_key(n) && 0 <= e < #[trigger] leaf_entries(nodes[n]).len() implies
        #[trigger] leaf_entries(nodes[n])[e].segment_id.0 != id by {
        if leaf_entries(nodes[n])[e].segment_id.0 == id {
            match nodes[n].kind {
                MetadataNodeKind::Leaf { entries, .. } => {
                    assert(entries@[e].segment_id.0 == id);
                    assert(node_names(nodes[n], id));
                    assert(any_node_names(nodes, id));
                },
                MetadataNodeKind::Internal { .. } => {},
            }
        }
    }
}

/// What a leaf maps; nothing where a node is no leaf.
pub open spec fn leaf_entries(node: MetadataNode) -> Seq<LeafEntry> {
    match node.kind {
        MetadataNodeKind::Leaf { entries, .. } => entries@,
        MetadataNodeKind::Internal { .. } => Seq::empty(),
    }
}

/// A segment that no leaf maps is given up once it was released, and before that
/// once its write is over: for the reason that fits how far the write had come.
pub proof fn law_unneeded_segments_are_given_up(
    list: Seq<SegmentId>,
    segments: Map<u128, SegmentRecord>,
    node_ids: Seq<StorageNodeId>,
    nodes: Map<u128, MetadataNode>,
    expired: Seq<WriteIntentId>,
    why: Disposal,
    id: u128,
)
    requires
        lists_given_up(list, segments, node_ids, nodes, expired, why),
        segments.contains_key(id),
        forall|n: u128, e: int|
            nodes.contains_key(n) && 0 <= e < #[trigger] leaf_entries(nodes[n]).len()
                ==> #[trigger] leaf_entries(nodes[n])[e].segment_id.0 != id,
    ensures
        segments[id].entry.state == SegmentLifecycleState::Released ==> (list.contains(
            SegmentId(id),
        ) <==> why == Disposal::Deleted),
        segments[id].entry.state == SegmentLifecycleState::Reserved && expired.contains(
            segments[id].entry.intent.write_intent,
        ) ==> (list.contains(SegmentId(id)) <==> why == Disposal::Expired),
        segments[id].entry.state == SegmentLifecycleState::Writing && expired.contains(
            segments[id].entry.intent.write_intent,
        ) ==> (list.contains(SegmentId(id)) <==> why == Disposal::Failed),
        segments[id].entry.state == SegmentLifecycleState::DurablePendingMetadata
            && expired.contains(segments[id].entry.intent.write_intent) ==> (list.contains(
            SegmentId(id),
        ) <==> why == Disposal::Orphaned),
{
    assert(!any_node_names(nodes, id)) by {
        if any_node_names(nodes, id) {
            let n = choose|n: u128| #[trigger]
                nodes.contains_key(n) && node_names(nodes[n], id);
            match nodes[n].kind {
                MetadataNodeKind::Leaf { entries, .. } => {
                    let e = choose|e: int|
                        0 <= e < entries@.len() && (#[trigger] entries@[e]).segment_id.0 == id;
                    assert(leaf_entries(nodes[n])[e].segment_id.0 == id);
                },
                MetadataNodeKind::Internal { .. } => {},
            }
        }
    }
    assert(list.contains(SegmentId(id)) <==> given_up(segments, nodes, expired, why, id));
}

proof fn lemma_place_of_node(node_ids: Seq<StorageNodeId>, place: int)
    requires
        node_ids.no_duplicates(),
        0 <= place < node_ids.len(),
    ensures
        node_place(node_ids, node_ids[place]) == place,
    decreases place,
{
    if place > 0 {
        assert(node_ids[0] != node_ids[place]);
        assert(node_ids.drop_first()[place - 1] == node_ids[place]);
        assert(node_ids.drop_first().no_duplicates()) by {
            assert forall|i: int, j: int|
                0 <= i < node_ids.drop_first().len() && 0 <= j < node_ids.drop_first().len() && i
                    != j implies node_ids.drop_first()[i] != node_ids.drop_first()[j] by {
                assert(node_ids[i + 1] != node_ids[j + 1]);
            }
        }
        lemma_place_of_node(node_ids.drop_first(), place - 1);
    }
}

/// What is given up is told of node by node, in the order of the nodes, and on each
/// node in the order of the segments.
pub proof fn law_given_up_segments_are_in_order(
    list: Seq<SegmentId>,
    segments: Map<u128, SegmentRecord>,
    node_ids: Seq<StorageNodeId>,
    nodes: Map<u128, MetadataNode>,
    expired: Seq<WriteIntentId>,
    why: Disposal,
    i: int,
    j: int,
    first: int,
    second: int,
)
    requires
        lists_given_up(list, segments, node_ids, nodes, expired, why),
        node_ids.no_duplicates(),
        0 <= i < j < list.len(),
        0 <= first < node_ids.len(),
        0 <= second < node_ids.len(),
        segments[list[i].0].storage_node == node_ids[first],
        segments[list[j].0].storage_node == node_ids[second],
    ensures
        first < second || first == second && list[i].0 < list[j].0,
{
    lemma_place_of_node(node_ids, first);
    lemma_place_of_node(node_ids, second);
}

/// A sweep releases the referenced segments that a leaf mapped before it and none
/// maps after it; every other segment stays as it was, and so do the bytes of all.
pub proof fn law_sweep_releases_what_is_no_longer_mapped(
    before: StorageNodeRegistry,
    after: StorageNodeRegistry,
    list: Seq<SegmentId>,
    nodes: Map<u128, MetadataNode>,
    left: Map<u128, MetadataNode>,
    id: u128,
)
    requires
        lists_unnamed(list, nodes, left),
        after.released_from(&before, list),
        before.segments@.contains_key(id),
    ensures
        after.segments@.contains_key(id),
        after.segments@[id].bytes == before.segments@[id].bytes,
        after.segments@[id].entry.receipt == before.segments@[id].entry.receipt,
        before.segments@[id].entry.state == SegmentLifecycleState::Referenced && any_node_names(
            nodes,
            id,
        ) && !any_node_names(left, id) ==> after.segments@[id].entry.state
            == SegmentLifecycleState::Released,
        any_node_names(left, id) || !any_node_names(nodes, id)
            || before.segments@[id].entry.state != SegmentLifecycleState::Referenced
            ==> after.segments@[id] == before.segments@[id],
{
    assert(list.contains(SegmentId(id)) <==> any_node_names(nodes, id) && !any_node_names(
        left,
        id,
    ));
}

/// Whether a catalog shard is in use: a keyspace has it, a commit that is kept put
/// it in or took it out, or a checkpoint's root has it.
pub open spec fn shard_in_use(metadata: MetadataInner, from: u64, id: u128) -> bool {
    ||| exists|k: u128, s: int|
        #![trigger metadata.keyspace_heads@[k].shard_roots@[s]]
        metadata.keyspace_heads@.contains_key(k) && 0 <= s
            < metadata.keyspace_heads@[k].shard_roots@.len()
            && metadata.keyspace_heads@[k].shard_roots@[s].0 == id
    ||| exists|i: int|
        0 <= i < metadata.keyspace_commits@.len() && from <= (
        #[trigger] metadata.keyspace_commits@[i]).commit_seq.0 && (
        metadata.keyspace_commits@[i].old_shard.0 == id
            || metadata.keyspace_commits@[i].new_shard.0 == id)
    ||| exists|r: u128, s: int|
        #![trigger metadata.keyspace_roots@[r].shard_roots@[s]]
        metadata.keyspace_roots@.contains_key(r) && 0 <= s
            < metadata.keyspace_roots@[r].shard_roots@.len()
            && metadata.keyspace_roots@[r].shard_roots@[s].0 == id
}

/// A sweep keeps just the catalog shards that are in use, each as it was.
pub proof fn law_sweep_keeps_shards_in_use(
    before: MetadataInner,
    after: MetadataInner,
    from: u64,
    id: u128,
)
    requires
        after.swept_from(&before, from),
    ensures
        after.keyspace_catalog_shards@.contains_key(id)
            <==> before.keyspace_catalog_shards@.contains_key(id) && shard_in_use(
            before,
            from,
            id,
        ),
        after.keyspace_catalog_shards@.contains_key(id) ==> after.keyspace_catalog_shards@[id]
            == before.keyspace_catalog_shards@[id],
{
    lemma_shard_in_use(before, from, id);
}

proof fn lemma_shard_in_use(metadata: MetadataInner, from: u64, id: u128)
    ensures
        metadata.needs_shard(from, id) <==> shard_in_use(metadata, from, id),
{
    let kept = between(metadata.keyspace_commits@, from, u64::MAX);
    let all = metadata.keyspace_commits@;
    if map_names(metadata.keyspace_heads@, NameKind::Shard, id) {
        let k = choose|k: u128| #[trigger]
            metadata.keyspace_heads@.contains_key(k) && metadata.keyspace_heads@[k].names(
                NameKind::Shard,
                id,
            );
        let list = metadata.keyspace_heads@[k].shard_roots@;
        let s = choose|s: int| 0 <= s < list.len() && (#[trigger] list[s]).0 == id;
        assert(metadata.keyspace_heads@[k].shard_roots@[s].0 == id);
    }
    if map_names(metadata.keyspace_roots@, NameKind::Shard, id) {
        let r = choose|r: u128| #[trigger]
            metadata.keyspace_roots@.contains_key(r) && metadata.keyspace_roots@[r].names(
                NameKind::Shard,
                id,
            );
        let list = metadata.keyspace_roots@[r].shard_roots@;
        let s = choose|s: int| 0 <= s < list.len() && (#[trigger] list[s]).0 == id;
        assert(metadata.keyspace_roots@[r].shard_roots@[s].0 == id);
    }
    if list_names(kept, NameKind::Shard, id) {
        let i = choose|i: int| 0 <= i < kept.len() && (#[trigger] kept[i]).names(
            NameKind::Shard,
            id,
        );
        law_rows_between_are_kept(all, from, u64::MAX, kept[i]);
        assert(has_row(kept, kept[i]));
        let j = choose|j: int| 0 <= j < all.len() && #[trigger] all[j] == kept[i];
        assert(from <= all[j].commit_seq.0);
    }
    if exists|k: u128, s: int|
        #![trigger metadata.keyspace_heads@[k].shard_roots@[s]]
        metadata.keyspace_heads@.contains_key(k) && 0 <= s
            < metadata.keyspace_heads@[k].shard_roots@.len()
            && metadata.keyspace_heads@[k].shard_roots@[s].0 == id {
        let (k, s) = choose|k: u128, s: int|
            #![trigger metadata.keyspace_heads@[k].shard_roots@[s]]
            metadata.keyspace_heads@.contains_key(k) && 0 <= s
                < metadata.keyspace_heads@[k].shard_roots@.len()
                && metadata.keyspace_heads@[k].shard_roots@[s].0 == id;
        assert(lists_shard(metadata.keyspace_heads@[k].shard_roots@, id));
        assert(metadata.keyspace_heads@[k].names(NameKind::Shard, id));
    }
    if exists|r: u128, s: int|
        #![trigger metadata.keyspace_roots@[r].shard_roots@[s]]
        metadata.keyspace_roots@.contains_key(r) && 0 <= s
            < metadata.keyspace_roots@[r].shard_roots@.len()
            && metadata.keyspace_roots@[r].shard_roots@[s].0 == id {
        let (r, s) = choose|r: u128, s: int|
            #![trigger metadata.keyspace_roots@[r].shard_roots@[s]]
            metadata.keyspace_roots@.contains_key(r) && 0 <= s
                < metadata.keyspace_roots@[r].shard_roots@.len()
                && metadata.keyspace_roots@[r].shard_roots@[s].0 == id;
        assert(lists_shard(metadata.keyspace_roots@[r].shard_roots@, id));
        assert(metadata.keyspace_roots@[r].names(NameKind::Shard, id));
    }
    if exists|i: int|
        0 <= i < all.len() && from <= (#[trigger] all[i]).commit_seq.0 && (all[i].old_shard.0 == id
            || all[i].new_shard.0 == id) {
        let i = choose|i: int|
            0 <= i < all.len() && from <= (#[trigger] all[i]).commit_seq.0 && (
            all[i].old_shard.0 == id || all[i].new_shard.0 == id);
        law_rows_between_are_kept(all, from, u64::MAX, all[i]);
        assert(has_row(all, all[i]));
        let j = choose|j: int| 0 <= j < kept.len() && #[trigger] kept[j] == all[i];
        assert(kept[j].names(NameKind::Shard, id));
    }
}

/// Whether an update of a commit group has a root, as old or as new.
pub open spec fn update_has_root(update: RootUpdate, root: u128) -> bool {
    match update {
        RootUpdate::BlockShard(update) => update.old_root.0 == root || update.new_root.0 == root,
        RootUpdate::FileCreated { new_root, .. } => new_root.0 == root,
        RootUpdate::FileRoot { old_root, new_root, .. } => old_root.0 == root || new_root.0
            == root,
    }
}

/// Whether a node is the root of a tree that is in use: of a device, or of a file in
/// a catalog shard that is in use; of a fork, a delete or a commit that is kept, as
/// what it found or as what it left; or of a checkpoint.
pub open spec fn root_in_use(metadata: MetadataInner, from: u64, root: u128) -> bool {
    ||| exists|d: u128, s: int|
        #![trigger metadata.device_heads@[d].shard_roots@[s]]
        metadata.device_heads@.contains_key(d) && 0 <= s
            < metadata.device_heads@[d].shard_roots@.len()
            && metadata.device_heads@[d].shard_roots@[s].0 == root
    ||| exists|d: u128, s: int|
        #![trigger metadata.deleted_device_heads@[d].shard_roots@[s]]
        metadata.deleted_device_heads@.contains_key(d) && from
            <= metadata.deleted_device_heads@[d].latest_commit.0 && 0 <= s
            < metadata.deleted_device_heads@[d].shard_roots@.len()
            && metadata.deleted_device_heads@[d].shard_roots@[s].0 == root
    ||| exists|f: u128, s: int|
        #![trigger metadata.fork_records@[f].shard_roots@[s]]
        metadata.fork_records@.contains_key(f) && from <= metadata.fork_records@[f].commit_seq.0
            && 0 <= s < metadata.fork_records@[f].shard_roots@.len()
            && metadata.fork_records@[f].shard_roots@[s].0 == root
    ||| exists|f: u128, s: int|
        #![trigger metadata.delete_records@[f].shard_roots@[s]]
        metadata.delete_records@.contains_key(f) && from
            <= metadata.delete_records@[f].commit_seq.0 && 0 <= s
            < metadata.delete_records@[f].shard_roots@.len()
            && metadata.delete_records@[f].shard_roots@[s].0 == root
    ||| exists|i: int|
        0 <= i < metadata.shard_commits@.len() && from <= (
        #[trigger] metadata.shard_commits@[i]).commit_seq.0 && (
        metadata.shard_commits@[i].old_root.0 == root || metadata.shard_commits@[i].new_root.0
            == root)
    ||| exists|i: int|
        0 <= i < metadata.file_commits@.len() && from <= (
        #[trigger] metadata.file_commits@[i]).commit_seq.0 && (
        metadata.file_commits@[i].new_root.0 == root || (
        metadata.file_commits@[i].old_root matches Some(old_root) && old_root.0 == root))
    ||| exists|g: u128, u: int|
        #![trigger metadata.commit_groups@[g].updates@[u]]
        metadata.commit_groups@.contains_key(g) && from <= metadata.commit_groups@[g].commit_seq.0
            && 0 <= u < metadata.commit_groups@[g].updates@.len() && update_has_root(
            metadata.commit_groups@[g].updates@[u],
            root,
        )
    ||| exists|c: u128| #[trigger]
        metadata.checkpoints@.contains_key(c) && (
        metadata.checkpoints@[c].roots matches CheckpointRoots::BlockShard(roots) && exists|s: int|
            0 <= s < roots@.len() && (#[trigger] roots@[s]).0 == root)
    ||| exists|shard: u128, file: u128|
        #![trigger metadata.keyspace_catalog_shards@[shard].files@[file]]
        metadata.keyspace_catalog_shards@.contains_key(shard) && shard_in_use(
            metadata,
            from,
            shard,
        ) && metadata.keyspace_catalog_shards@[shard].files@.contains_key(file)
            && metadata.keyspace_catalog_shards@[shard].files@[file].head.root.0 == root
}

/// A root that is in use is needed.
proof fn lemma_used_root_is_needed(metadata: MetadataInner, from: u64, root: u128)
    requires
        root_in_use(metadata, from, root),
    ensures
        metadata.needs_root(from, root),
{
    let m = metadata;
    if exists|d: u128, s: int|
        #![trigger m.device_heads@[d].shard_roots@[s]]
        m.device_heads@.contains_key(d) && 0 <= s < m.device_heads@[d].shard_roots@.len()
            && m.device_heads@[d].shard_roots@[s].0 == root {
        let (d, s) = choose|d: u128, s: int|
            #![trigger m.device_heads@[d].shard_roots@[s]]
            m.device_heads@.contains_key(d) && 0 <= s < m.device_heads@[d].shard_roots@.len()
                && m.device_heads@[d].shard_roots@[s].0 == root;
        assert(lists_node(m.device_heads@[d].shard_roots@, root));
        assert(m.device_heads@[d].names(NameKind::Root, root));
    } else if exists|d: u128, s: int|
        #![trigger m.deleted_device_heads@[d].shard_roots@[s]]
        m.deleted_device_heads@.contains_key(d) && from
            <= m.deleted_device_heads@[d].latest_commit.0 && 0 <= s
            < m.deleted_device_heads@[d].shard_roots@.len()
            && m.deleted_device_heads@[d].shard_roots@[s].0 == root {
        let (d, s) = choose|d: u128, s: int|
            #![trigger m.deleted_device_heads@[d].shard_roots@[s]]
            m.deleted_device_heads@.contains_key(d) && from
                <= m.deleted_device_heads@[d].latest_commit.0 && 0 <= s
                < m.deleted_device_heads@[d].shard_roots@.len()
                && m.deleted_device_heads@[d].shard_roots@[s].0 == root;
        assert(lists_node(m.deleted_device_heads@[d].shard_roots@, root));
        assert(m.deleted_device_heads@[d].names(NameKind::Root, root));
        assert(map_names_from(m.deleted_device_heads@, from, NameKind::Root, root));
    } else if exists|f: u128, s: int|
        #![trigger m.fork_records@[f].shard_roots@[s]]
        m.fork_records@.contains_key(f) && from <= m.fork_records@[f].commit_seq.0 && 0 <= s
            < m.fork_records@[f].shard_roots@.len() && m.fork_records@[f].shard_roots@[s].0
            == root {
        let (f, s) = choose|f: u128, s: int|
            #![trigger m.fork_records@[f].shard_roots@[s]]
            m.fork_records@.contains_key(f) && from <= m.fork_records@[f].commit_seq.0 && 0 <= s
                < m.fork_records@[f].shard_roots@.len() && m.fork_records@[f].shard_roots@[s].0
                == root;
        assert(lists_node(m.fork_records@[f].shard_roots@, root));
        assert(m.fork_records@[f].names(NameKind::Root, root));
        assert(map_names_from(m.fork_records@, from, NameKind::Root, root));
    } else if exists|f: u128, s: int|
        #![trigger m.delete_records@[f].shard_roots@[s]]
        m.delete_records@.contains_key(f) && from <= m.delete_records@[f].commit_seq.0 && 0 <= s
            < m.delete_records@[f].shard_roots@.len() && m.delete_records@[f].shard_roots@[s].0
            == root {
        let (f, s) = choose|f: u128, s: int|
            #![trigger m.delete_records@[f].shard_roots@[s]]
            m.delete_records@.contains_key(f) && from <= m.delete_records@[f].commit_seq.0 && 0
                <= s < m.delete_records@[f].shard_roots@.len()
                && m.delete_records@[f].shard_roots@[s].0 == root;
        assert(lists_node(m.delete_records@[f].shard_roots@, root));
        assert(m.delete_records@[f].names(NameKind::Root, root));
        assert(map_names_from(m.delete_records@, from, NameKind::Root, root));
    } else if exists|i: int|
        0 <= i < m.shard_commits@.len() && from <= (#[trigger] m.shard_commits@[i]).commit_seq.0
            && (m.shard_commits@[i].old_root.0 == root || m.shard_commits@[i].new_root.0
            == root) {
        let all = m.shard_commits@;
        let kept = between(all, from, u64::MAX);
        let i = choose|i: int|
            0 <= i < all.len() && from <= (#[trigger] all[i]).commit_seq.0 && (all[i].old_root.0
                == root || all[i].new_root.0 == root);
        law_rows_between_are_kept(all, from, u64::MAX, all[i]);
        assert(has_row(all, all[i]));
        let j = choose|j: int| 0 <= j < kept.len() && #[trigger] kept[j] == all[i];
        assert(kept[j].names(NameKind::Root, root));
    } else if exists|i: int|
        0 <= i < m.file_commits@.len() && from <= (#[trigger] m.file_commits@[i]).commit_seq.0 && (
        m.file_commits@[i].new_root.0 == root || (m.file_commits@[i].old_root matches Some(old_root)
            && old_root.0 == root)) {
        let all = m.file_commits@;
        let kept = between(all, from, u64::MAX);
        let i = choose|i: int|
            0 <= i < all.len() && from <= (#[trigger] all[i]).commit_seq.0 && (all[i].new_root.0
                == root || (all[i].old_root matches Some(old_root) && old_root.0 == root));
        law_rows_between_are_kept(all, from, u64::MAX, all[i]);
        assert(has_row(all, all[i]));
        let j = choose|j: int| 0 <= j < kept.len() && #[trigger] kept[j] == all[i];
        assert(kept[j].names(NameKind::Root, root));
    } else if exists|g: u128, u: int|
        #![trigger m.commit_groups@[g].updates@[u]]
        m.commit_groups@.contains_key(g) && from <= m.commit_groups@[g].commit_seq.0 && 0 <= u
            < m.commit_groups@[g].updates@.len() && update_has_root(
            m.commit_groups@[g].updates@[u],
            root,
        ) {
        let (g, u) = choose|g: u128, u: int|
            #![trigger m.commit_groups@[g].updates@[u]]
            m.commit_groups@.contains_key(g) && from <= m.commit_groups@[g].commit_seq.0 && 0 <= u
                < m.commit_groups@[g].updates@.len() && update_has_root(
                m.commit_groups@[g].updates@[u],
                root,
            );
        let updates = m.commit_groups@[g].updates@;
        assert(updates[u].names(NameKind::Root, root));
        assert(list_names(updates, NameKind::Root, root));
        assert(m.commit_groups@[g].names(NameKind::Root, root));
        assert(map_names_from(m.commit_groups@, from, NameKind::Root, root));
    } else if exists|c: u128| #[trigger]
        m.checkpoints@.contains_key(c) && (
        m.checkpoints@[c].roots matches CheckpointRoots::BlockShard(roots) && exists|s: int|
            0 <= s < roots@.len() && (#[trigger] roots@[s]).0 == root) {
        let c = choose|c: u128| #[trigger]
            m.checkpoints@.contains_key(c) && (
            m.checkpoints@[c].roots matches CheckpointRoots::BlockShard(roots) && exists|s: int|
                0 <= s < roots@.len() && (#[trigger] roots@[s]).0 == root);
        assert(m.checkpoints@[c].names(NameKind::Root, root));
        assert(map_names(m.checkpoints@, NameKind::Root, root));
    } else {
        let (shard, file) = choose|shard: u128, file: u128|
            #![trigger m.keyspace_catalog_shards@[shard].files@[file]]
            m.keyspace_catalog_shards@.contains_key(shard) && shard_in_use(m, from, shard)
                && m.keyspace_catalog_shards@[shard].files@.contains_key(file)
                && m.keyspace_catalog_shards@[shard].files@[file].head.root.0 == root;
        lemma_shard_in_use(m, from, shard);
        assert(m.keyspace_catalog_shards@[shard].names(NameKind::Root, root));
        assert(m.needed_shard_names(from, root));
    }
}

/// A root that is needed is in use.
proof fn lemma_needed_root_is_used(metadata: MetadataInner, from: u64, root: u128)
    requires
        metadata.needs_root(from, root),
    ensures
        root_in_use(metadata, from, root),
{
    let m = metadata;
    let commits = between(m.shard_commits@, from, u64::MAX);
    let file_commits = between(m.file_commits@, from, u64::MAX);
    if map_names(m.device_heads@, NameKind::Root, root) {
        let d = choose|d: u128| #[trigger]
            m.device_heads@.contains_key(d) && m.device_heads@[d].names(NameKind::Root, root);
        let list = m.device_heads@[d].shard_roots@;
        let s = choose|s: int| 0 <= s < list.len() && (#[trigger] list[s]).0 == root;
        assert(m.device_heads@[d].shard_roots@[s].0 == root);
    } else if map_names_from(m.deleted_device_heads@, from, NameKind::Root, root) {
        let d = choose|d: u128| #[trigger]
            m.deleted_device_heads@.contains_key(d) && m.deleted_device_heads@[d].seq_of() >= from
                && m.deleted_device_heads@[d].names(NameKind::Root, root);
        let list = m.deleted_device_heads@[d].shard_roots@;
        let s = choose|s: int| 0 <= s < list.len() && (#[trigger] list[s]).0 == root;
        assert(m.deleted_device_heads@[d].shard_roots@[s].0 == root);
    } else if map_names_from(m.fork_records@, from, NameKind::Root, root) {
        let f = choose|f: u128| #[trigger]
            m.fork_records@.contains_key(f) && m.fork_records@[f].seq_of() >= from
                && m.fork_records@[f].names(NameKind::Root, root);
        let list = m.fork_records@[f].shard_roots@;
        let s = choose|s: int| 0 <= s < list.len() && (#[trigger] list[s]).0 == root;
        assert(m.fork_records@[f].shard_roots@[s].0 == root);
    } else if map_names_from(m.delete_records@, from, NameKind::Root, root) {
        let f = choose|f: u128| #[trigger]
            m.delete_records@.contains_key(f) && m.delete_records@[f].seq_of() >= from
                && m.delete_records@[f].names(NameKind::Root, root);
        let list = m.delete_records@[f].shard_roots@;
        let s = choose|s: int| 0 <= s < list.len() && (#[trigger] list[s]).0 == root;
        assert(m.delete_records@[f].shard_roots@[s].0 == root);
    } else if list_names(commits, NameKind::Root, root) {
        let all = m.shard_commits@;
        let i = choose|i: int|
            0 <= i < commits.len() && (#[trigger] commits[i]).names(NameKind::Root, root);
        law_rows_between_are_kept(all, from, u64::MAX, commits[i]);
        assert(has_row(commits, commits[i]));
        let j = choose|j: int| 0 <= j < all.len() && #[trigger] all[j] == commits[i];
        assert(from <= all[j].commit_seq.0);
    } else if list_names(file_commits, NameKind::Root, root) {
        let all = m.file_commits@;
        let i = choose|i: int|
            0 <= i < file_commits.len() && (#[trigger] file_commits[i]).names(
                NameKind::Root,
                root,
            );
        law_rows_between_are_kept(all, from, u64::MAX, file_commits[i]);
        assert(has_row(file_commits, file_commits[i]));
        let j = choose|j: int| 0 <= j < all.len() && #[trigger] all[j] == file_commits[i];
        assert(from <= all[j].commit_seq.0);
    } else if map_names_from(m.commit_groups@, from, NameKind::Root, root) {
        let g = choose|g: u128| #[trigger]
            m.commit_groups@.contains_key(g) && m.commit_groups@[g].seq_of() >= from
                && m.commit_groups@[g].names(NameKind::Root, root);
        let updates = m.commit_groups@[g].updates@;
        assert(list_names(updates, NameKind::Root, root));
        let u = choose|u: int|
            0 <= u < updates.len() && (#[trigger] updates[u]).names(NameKind::Root, root);
        assert(update_has_root(m.commit_groups@[g].updates@[u], root));
    } else if map_names(m.checkpoints@, NameKind::Root, root) {
        let c = choose|c: u128| #[trigger]
            m.checkpoints@.contains_key(c) && m.checkpoints@[c].names(NameKind::Root, root);
        assert(m.checkpoints@.contains_key(c));
    } else {
        let shard = choose|shard: u128| #[trigger]
            m.keyspace_catalog_shards@.contains_key(shard) && m.needs_shard(from, shard)
                && m.keyspace_catalog_shards@[shard].names(NameKind::Root, root);
        lemma_shard_in_use(m, from, shard);
        let files = m.keyspace_catalog_shards@[shard].files@;
        let file = choose|file: u128| #[trigger]
            files.contains_key(file) && files[file].head.root.0 == root;
        assert(m.keyspace_catalog_shards@[shard].files@[file].head.root.0 == root);
    }
}

/// A sweep keeps each node that a root in use leads to, as it was, and of the others
/// only those that a marked node leads to.
pub proof fn law_sweep_keeps_trees_in_use(
    before: MetadataInner,
    after: MetadataInner,
    from: u64,
    epoch: u64,
    node: u128,
)
    requires
        after.swept_from(&before, from),
        after.nodes_swept(&before, from, epoch),
    ensures
        (exists|root: u128|
            root_in_use(before, from, root) && #[trigger] reaches(before.nodes(), root, node))
            ==> after.nodes().contains_key(node) && after.nodes()[node] == before.nodes()[node],
        after.nodes().contains_key(node) ==> (exists|root: u128|
            root_in_use(before, from, root) && #[trigger] reaches(before.nodes(), root, node)) || (
        exists|marked: u128|
            before.metadata_last_mark_epoch@.contains_key(marked)
                && before.metadata_last_mark_epoch@[marked] == epoch && #[trigger] reaches(
                before.nodes(),
                marked,
                node,
            )),
{
    if exists|root: u128|
        root_in_use(before, from, root) && #[trigger] reaches(before.nodes(), root, node) {
        let root = choose|root: u128|
            root_in_use(before, from, root) && #[trigger] reaches(before.nodes(), root, node);
        lemma_used_root_is_needed(before, from, root);
        assert(before.needs_node(from, node));
    }
    if after.nodes().contains_key(node) {
        if before.needs_node(from, node) {
            let root = choose|root: u128| #[trigger]
                before.needs_root(from, root) && reaches(before.nodes(), root, node);
            lemma_needed_root_is_used(before, from, root);
            assert(reaches(before.nodes(), root, node));
        } else {
            let marked = choose|marked: u128| #[trigger]
                before.marked_with(epoch, marked) && reaches(before.nodes(), marked, node);
            assert(reaches(before.nodes(), marked, node));
        }
    }
}

/// A mark puts its epoch on just the nodes that a root in use leads to, and leaves
/// the marks of all others as they were.
pub proof fn law_mark_finds_trees_in_use(
    before: MetadataInner,
    after: MetadataInner,
    from: u64,
    report: MetadataMarkReport,
    node: u128,
)
    requires
        after.marked_from(&before, from, report),
    ensures
        (exists|root: u128|
            root_in_use(before, from, root) && #[trigger] reaches(before.nodes(), root, node))
            ==> after.metadata_last_mark_epoch@.contains_key(node)
            && after.metadata_last_mark_epoch@[node] == report.epoch,
        !(exists|root: u128|
            root_in_use(before, from, root) && #[trigger] reaches(before.nodes(), root, node)) ==> (
        after.metadata_last_mark_epoch@.contains_key(node)
            <==> before.metadata_last_mark_epoch@.contains_key(node)) && (
        after.metadata_last_mark_epoch@.contains_key(node)
            ==> after.metadata_last_mark_epoch@[node] == before.metadata_last_mark_epoch@[node]),
{
    let picked = |id: u128| before.needs_node(from, id);
    assert(marks_set(
        before.metadata_last_mark_epoch@,
        after.metadata_last_mark_epoch@,
        picked,
        report.epoch,
    ));
    assert(after.metadata_last_mark_epoch@.contains_key(node)
        <==> before.metadata_last_mark_epoch@.contains_key(node) || picked(node));
    if exists|root: u128|
        root_in_use(before, from, root) && #[trigger] reaches(before.nodes(), root, node) {
        let root = choose|root: u128|
            root_in_use(before, from, root) && #[trigger] reaches(before.nodes(), root, node);
        lemma_used_root_is_needed(before, from, root);
        assert(before.needs_node(from, node));
        assert(picked(node));
    } else if before.needs_node(from, node) {
        let root = choose|root: u128| #[trigger]
            before.needs_root(from, root) && reaches(before.nodes(), root, node);
        lemma_needed_root_is_used(before, from, root);
        assert(reaches(before.nodes(), root, node));
    }
}

} // verus!
