//! What a device or a keyspace was at an earlier commit: in each shard what the
//! first later commit on that shard replaced.
use vstd::prelude::*;

use crate::block_api::RestorePoint;
use crate::device_history::roots_at;
use crate::id::{
    CheckpointId, CommitSeq, DeviceId, KeyspaceCatalogShardId, KeyspaceId, LogicalTime,
    MetadataNodeId, ShardId,
};
use crate::keyspace_history::{catalog_at, count_at};
use crate::metadata::MetadataInner;
use crate::metadata_records::{CheckpointRoots, KeyspaceCommit, MappingOwner, ShardCommit};

verus! {

/// Where a device was written after a commit, the root of the shard at that commit
/// is the one that the first later commit replaced; later ones are nothing to it.
pub proof fn law_first_later_commit_tells_the_root(
    roots: Seq<MetadataNodeId>,
    commits: Seq<ShardCommit>,
    device_id: DeviceId,
    at: u64,
    first: int,
)
    requires
        0 <= first < commits.len(),
        commits[first].device_id == device_id,
        commits[first].commit_seq.0 > at,
        forall|i: int|
            0 <= i < commits.len() && (#[trigger] commits[i]).device_id == device_id
                && commits[i].commit_seq.0 > at ==> commits[i].shard_id.0 < roots.len(),
        forall|i: int|
            0 <= i < first && (#[trigger] commits[i]).device_id == device_id
                && commits[i].shard_id == commits[first].shard_id ==> commits[i].commit_seq.0
                <= at,
    ensures
        roots_at(roots, commits, device_id, at).len() == roots.len(),
        roots_at(roots, commits, device_id, at)[commits[first].shard_id.0 as int]
            == commits[first].old_root,
    decreases commits.len(),
{
    let last = commits.last();
    let fewer = commits.drop_last();
    assert(commits[commits.len() - 1] == last);
    let undone = if last.device_id == device_id && last.commit_seq.0 > at {
        roots.update(last.shard_id.0 as int, last.old_root)
    } else {
        roots
    };
    assert forall|i: int|
        0 <= i < fewer.len() && (#[trigger] fewer[i]).device_id == device_id
            && fewer[i].commit_seq.0 > at implies fewer[i].shard_id.0 < undone.len() by {
        assert(fewer[i] == commits[i]);
    }
    if first == commits.len() - 1 {
        assert forall|i: int|
            0 <= i < fewer.len() && (#[trigger] fewer[i]).device_id == device_id
                && fewer[i].shard_id == last.shard_id implies fewer[i].commit_seq.0 <= at by {
            assert(fewer[i] == commits[i]);
        }
        law_root_stays_without_later_commits(undone, fewer, device_id, at, last.shard_id);
    } else {
        assert(fewer[first] == commits[first]);
        assert forall|i: int|
            0 <= i < first && (#[trigger] fewer[i]).device_id == device_id
                && fewer[i].shard_id == fewer[first].shard_id implies fewer[i].commit_seq.0
            <= at by {
            assert(fewer[i] == commits[i]);
        }
        law_first_later_commit_tells_the_root(undone, fewer, device_id, at, first);
    }
}

/// Where a shard of a device was not written after a commit, its root at that
/// commit is the one that it has.
pub proof fn law_root_stays_without_later_commits(
    roots: Seq<MetadataNodeId>,
    commits: Seq<ShardCommit>,
    device_id: DeviceId,
    at: u64,
    shard_id: ShardId,
)
    requires
        shard_id.0 < roots.len(),
        forall|i: int|
            0 <= i < commits.len() && (#[trigger] commits[i]).device_id == device_id
                && commits[i].commit_seq.0 > at ==> commits[i].shard_id.0 < roots.len(),
        forall|i: int|
            0 <= i < commits.len() && (#[trigger] commits[i]).device_id == device_id
                && commits[i].shard_id == shard_id ==> commits[i].commit_seq.0 <= at,
    ensures
        roots_at(roots, commits, device_id, at).len() == roots.len(),
        roots_at(roots, commits, device_id, at)[shard_id.0 as int] == roots[shard_id.0 as int],
    decreases commits.len(),
{
    if commits.len() > 0 {
        let last = commits.last();
        let fewer = commits.drop_last();
        assert(commits[commits.len() - 1] == last);
        let undone = if last.device_id == device_id && last.commit_seq.0 > at {
            roots.update(last.shard_id.0 as int, last.old_root)
        } else {
            roots
        };
        assert forall|i: int|
            0 <= i < fewer.len() && (#[trigger] fewer[i]).device_id == device_id
                && fewer[i].commit_seq.0 > at implies fewer[i].shard_id.0 < undone.len() by {
            assert(fewer[i] == commits[i]);
        }
        assert forall|i: int|
            0 <= i < fewer.len() && (#[trigger] fewer[i]).device_id == device_id
                && fewer[i].shard_id == shard_id implies fewer[i].commit_seq.0 <= at by {
            assert(fewer[i] == commits[i]);
        }
        law_root_stays_without_later_commits(undone, fewer, device_id, at, shard_id);
    }
}

/// Where a keyspace was changed after a commit, the catalog shard at that commit
/// is the one that the first later commit on that shard replaced.
pub proof fn law_first_later_commit_tells_the_shard(
    roots: Seq<KeyspaceCatalogShardId>,
    commits: Seq<KeyspaceCommit>,
    keyspace_id: KeyspaceId,
    at: u64,
    first: int,
)
    requires
        0 <= first < commits.len(),
        commits[first].keyspace_id == keyspace_id,
        commits[first].commit_seq.0 > at,
        forall|i: int|
            0 <= i < commits.len() && (#[trigger] commits[i]).keyspace_id == keyspace_id
                && commits[i].commit_seq.0 > at ==> commits[i].shard_index < roots.len(),
        forall|i: int|
            0 <= i < first && (#[trigger] commits[i]).keyspace_id == keyspace_id
                && commits[i].shard_index == commits[first].shard_index
                ==> commits[i].commit_seq.0 <= at,
    ensures
        catalog_at(roots, commits, keyspace_id, at).len() == roots.len(),
        catalog_at(roots, commits, keyspace_id, at)[commits[first].shard_index as int]
            == commits[first].old_shard,
    decreases commits.len(),
{
    let last = commits.last();
    let fewer = commits.drop_last();
    assert(commits[commits.len() - 1] == last);
    let undone = if last.keyspace_id == keyspace_id && last.commit_seq.0 > at {
        roots.update(last.shard_index as int, last.old_shard)
    } else {
        roots
    };
    assert forall|i: int|
        0 <= i < fewer.len() && (#[trigger] fewer[i]).keyspace_id == keyspace_id
            && fewer[i].commit_seq.0 > at implies fewer[i].shard_index < undone.len() by {
        assert(fewer[i] == commits[i]);
    }
    if first == commits.len() - 1 {
        assert forall|i: int|
            0 <= i < fewer.len() && (#[trigger] fewer[i]).keyspace_id == keyspace_id
                && fewer[i].shard_index == last.shard_index implies fewer[i].commit_seq.0
            <= at by {
            assert(fewer[i] == commits[i]);
        }
        law_shard_stays_without_later_commits(undone, fewer, keyspace_id, at, last.shard_index);
    } else {
        assert(fewer[first] == commits[first]);
        assert forall|i: int|
            0 <= i < first && (#[trigger] fewer[i]).keyspace_id == keyspace_id
                && fewer[i].shard_index == fewer[first].shard_index implies fewer[i].commit_seq.0
            <= at by {
            assert(fewer[i] == commits[i]);
        }
        law_first_later_commit_tells_the_shard(undone, fewer, keyspace_id, at, first);
    }
}

/// Where a catalog shard was not changed after a commit, it was at that commit
/// what it is.
pub proof fn law_shard_stays_without_later_commits(
    roots: Seq<KeyspaceCatalogShardId>,
    commits: Seq<KeyspaceCommit>,
    keyspace_id: KeyspaceId,
    at: u64,
    shard_index: u32,
)
    requires
        shard_index < roots.len(),
        forall|i: int|
            0 <= i < commits.len() && (#[trigger] commits[i]).keyspace_id == keyspace_id
                && commits[i].commit_seq.0 > at ==> commits[i].shard_index < roots.len(),
        forall|i: int|
            0 <= i < commits.len() && (#[trigger] commits[i]).keyspace_id == keyspace_id
                && commits[i].shard_index == shard_index ==> commits[i].commit_seq.0 <= at,
    ensures
        catalog_at(roots, commits, keyspace_id, at).len() == roots.len(),
        catalog_at(roots, commits, keyspace_id, at)[shard_index as int]
            == roots[shard_index as int],
    decreases commits.len(),
{
    if commits.len() > 0 {
        let last = commits.last();
        let fewer = commits.drop_last();
        assert(commits[commits.len() - 1] == last);
        let undone = if last.keyspace_id == keyspace_id && last.commit_seq.0 > at {
            roots.update(last.shard_index as int, last.old_shard)
        } else {
            roots
        };
        assert forall|i: int|
            0 <= i < fewer.len() && (#[trigger] fewer[i]).keyspace_id == keyspace_id
                && fewer[i].commit_seq.0 > at implies fewer[i].shard_index < undone.len() by {
            assert(fewer[i] == commits[i]);
        }
        assert forall|i: int|
            0 <= i < fewer.len() && (#[trigger] fewer[i]).keyspace_id == keyspace_id
                && fewer[i].shard_index == shard_index implies fewer[i].commit_seq.0 <= at by {
            assert(fewer[i] == commits[i]);
        }
        law_shard_stays_without_later_commits(undone, fewer, keyspace_id, at, shard_index);
    }
}

/// A keyspace had as many files at a commit as the first later commit found in it.
pub proof fn law_first_later_commit_tells_the_count(
    count: usize,
    commits: Seq<KeyspaceCommit>,
    keyspace_id: KeyspaceId,
    at: u64,
    first: int,
)
    requires
        0 <= first < commits.len(),
        commits[first].keyspace_id == keyspace_id,
        commits[first].commit_seq.0 > at,
        forall|i: int|
            0 <= i < first && (#[trigger] commits[i]).keyspace_id == keyspace_id
                ==> commits[i].commit_seq.0 <= at,
    ensures
        count_at(count, commits, keyspace_id, at) == commits[first].old_file_count,
    decreases commits.len(),
{
    let last = commits.last();
    let fewer = commits.drop_last();
    assert(commits[commits.len() - 1] == last);
    let undone = if last.keyspace_id == keyspace_id && last.commit_seq.0 > at {
        last.old_file_count
    } else {
        count
    };
    assert forall|i: int|
        0 <= i < first && (#[trigger] fewer[i]).keyspace_id == keyspace_id implies
        fewer[i].commit_seq.0 <= at by {
        assert(fewer[i] == commits[i]);
    }
    if first == commits.len() - 1 {
        law_count_stays_without_later_commits(undone, fewer, keyspace_id, at);
    } else {
        assert(fewer[first] == commits[first]);
        law_first_later_commit_tells_the_count(undone, fewer, keyspace_id, at, first);
    }
}

/// A keyspace that was not changed after a commit had as many files as it has.
pub proof fn law_count_stays_without_later_commits(
    count: usize,
    commits: Seq<KeyspaceCommit>,
    keyspace_id: KeyspaceId,
    at: u64,
)
    requires
        forall|i: int|
            0 <= i < commits.len() && (#[trigger] commits[i]).keyspace_id == keyspace_id
                ==> commits[i].commit_seq.0 <= at,
    ensures
        count_at(count, commits, keyspace_id, at) == count,
    decreases commits.len(),
{
    if commits.len() > 0 {
        let fewer = commits.drop_last();
        assert(commits[commits.len() - 1] == commits.last());
        assert forall|i: int|
            0 <= i < fewer.len() && (#[trigger] fewer[i]).keyspace_id == keyspace_id implies
            fewer[i].commit_seq.0 <= at by {
            assert(fewer[i] == commits[i]);
        }
        law_count_stays_without_later_commits(count, fewer, keyspace_id, at);
    }
}

/// A device can be restored to a commit just where it is there or was deleted, history
/// reaches back to the commit, and no fork has made it since.
pub proof fn law_devices_are_restored_as_far_as_history_goes(
    metadata: MetadataInner,
    device_id: DeviceId,
    at: u64,
    point: RestorePoint,
)
    requires
        point == RestorePoint::Commit(CommitSeq(at)) || point == RestorePoint::Time(
            LogicalTime(at),
        ),
    ensures
        metadata.has_point(device_id, point) <==> {
            &&& metadata.device_heads@.contains_key(device_id.0)
                || metadata.deleted_device_heads@.contains_key(device_id.0)
            &&& metadata.history_floor <= at
            &&& forall|id: u128| #[trigger]
                metadata.fork_records@.contains_key(id) && metadata.fork_records@[id].target
                    == device_id ==> metadata.fork_records@[id].commit_seq.0 <= at
        },
{
    if forall|id: u128| #[trigger]
        metadata.fork_records@.contains_key(id) && metadata.fork_records@[id].target == device_id
            ==> metadata.fork_records@[id].commit_seq.0 <= at {
        assert(!metadata.forked_after(device_id, at));
    }
    if !metadata.forked_after(device_id, at) {
        assert forall|id: u128| #[trigger]
            metadata.fork_records@.contains_key(id) && metadata.fork_records@[id].target
                == device_id implies metadata.fork_records@[id].commit_seq.0 <= at by {
            assert(metadata.fork_records@.contains_key(id));
        }
    }
}

/// A device can be restored to a checkpoint just where the checkpoint is one of that
/// device, and is then restored to the roots that the checkpoint holds.
pub proof fn law_checkpoints_are_of_one_device(
    metadata: MetadataInner,
    device_id: DeviceId,
    checkpoint_id: CheckpointId,
)
    requires
        metadata.has_point(device_id, RestorePoint::Checkpoint(checkpoint_id)),
    ensures
        metadata.checkpoints@.contains_key(checkpoint_id.0),
        metadata.checkpoints@[checkpoint_id.0].owner == MappingOwner::BlockDevice(device_id),
        metadata.checkpoints@[checkpoint_id.0].roots matches CheckpointRoots::BlockShard(roots)
            && metadata.roots_at_point(device_id, RestorePoint::Checkpoint(checkpoint_id))
            == roots@,
{
}

/// A keyspace cannot be restored to a commit before the one that made it from
/// another, nor to one that history does not reach back to, nor while it is not
/// there.
pub proof fn law_keyspaces_are_restored_as_far_as_history_goes(
    metadata: MetadataInner,
    keyspace_id: KeyspaceId,
    at: u64,
    point: RestorePoint,
)
    requires
        point == RestorePoint::Commit(CommitSeq(at)) || point == RestorePoint::Time(
            LogicalTime(at),
        ),
        metadata.has_keyspace_point(keyspace_id, point),
    ensures
        metadata.keyspace_heads@.contains_key(keyspace_id.0),
        metadata.history_floor <= at,
        metadata.keyspace_births@.contains_key(keyspace_id.0)
            ==> metadata.keyspace_births@[keyspace_id.0].0 <= at,
{
}

} // verus!
