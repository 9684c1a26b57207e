//! The past of keyspaces: what one held at a commit, and making a keyspace
//! that holds it again.
use vstd::prelude::*;

use crate::block_api::RestorePoint;
use crate::coordinator::LocalCoordinator;
use crate::error::StorageError;
use crate::id::{
    CheckpointId, CommitSeq, FileId, KeyspaceCatalogShardId, KeyspaceGeneration, KeyspaceId,
    KeyspaceRootId, LogicalTime,
};
use crate::metadata::{MetadataInner, catalog_roots_wf, checkpoint_wf};
use crate::metadata_files::catalog_head;
use crate::metadata_records::{
    Checkpoint, CheckpointRoots, KeyspaceCommit, KeyspaceHead, KeyspaceRoot, MappingOwner,
};
use crate::native_api::SnapshotKeyspaceRequest;
use crate::observability::StorageEventKind;
use crate::persist_state::later;
use crate::tree::copy_vec;

verus! {

/// The catalog of a keyspace at a commit: later commits taken back.
pub open spec fn catalog_at(
    roots: Seq<KeyspaceCatalogShardId>,
    commits: Seq<KeyspaceCommit>,
    keyspace_id: KeyspaceId,
    at: u64,
) -> Seq<KeyspaceCatalogShardId>
    decreases commits.len(),
{
    if commits.len() == 0 {
        roots
    } else {
        let last = commits.last();
        let undone = if last.keyspace_id == keyspace_id && last.commit_seq.0 > at {
            roots.update(last.shard_index as int, last.old_shard)
        } else {
            roots
        };
        catalog_at(undone, commits.drop_last(), keyspace_id, at)
    }
}

/// How many files a keyspace had at a commit.
pub open spec fn count_at(
    count: usize,
    commits: Seq<KeyspaceCommit>,
    keyspace_id: KeyspaceId,
    at: u64,
) -> usize
    decreases commits.len(),
{
    if commits.len() == 0 {
        count
    } else {
        let last = commits.last();
        let undone = if last.keyspace_id == keyspace_id && last.commit_seq.0 > at {
            last.old_file_count
        } else {
            count
        };
        count_at(undone, commits.drop_last(), keyspace_id, at)
    }
}

/// Whether the later commits of a keyspace are on shards that it has.
pub open spec fn commits_fit(
    commits: Seq<KeyspaceCommit>,
    keyspace_id: KeyspaceId,
    at: u64,
    shards: int,
) -> bool {
    forall|i: int|
        0 <= i < commits.len() && (#[trigger] commits[i]).keyspace_id == keyspace_id
            && commits[i].commit_seq.0 > at ==> commits[i].shard_index < shards
}

/// A commit is taken back by itself: the catalog at an earlier point is the
/// same before it and after it.
pub proof fn law_later_keyspace_commits_leave_the_past(
    roots: Seq<KeyspaceCatalogShardId>,
    commits: Seq<KeyspaceCommit>,
    commit: KeyspaceCommit,
    at: u64,
)
    requires
        commit.shard_index < roots.len(),
        roots[commit.shard_index as int] == commit.old_shard,
        at < commit.commit_seq.0,
    ensures
        catalog_at(
            roots.update(commit.shard_index as int, commit.new_shard),
            commits.push(commit),
            commit.keyspace_id,
            at,
        ) == catalog_at(roots, commits, commit.keyspace_id, at),
{
    let after = commits.push(commit);
    assert(after.drop_last() =~= commits);
    assert(roots.update(commit.shard_index as int, commit.new_shard).update(
        commit.shard_index as int,
        commit.old_shard,
    ) =~= roots);
}

/// A commit that is put among later ones, none of which is on its shard, is
/// taken back by itself too.
proof fn lemma_inserted_commit_leaves_the_past(
    roots: Seq<KeyspaceCatalogShardId>,
    commits: Seq<KeyspaceCommit>,
    commit: KeyspaceCommit,
    place: int,
    at: u64,
)
    requires
        0 <= place <= commits.len(),
        commit.shard_index < roots.len(),
        roots[commit.shard_index as int] == commit.old_shard,
        at < commit.commit_seq.0,
        forall|i: int|
            place <= i < commits.len() && (#[trigger] commits[i]).keyspace_id
                == commit.keyspace_id ==> commits[i].shard_index != commit.shard_index
                && commits[i].shard_index < roots.len(),
    ensures
        catalog_at(
            roots.update(commit.shard_index as int, commit.new_shard),
            commits.insert(place, commit),
            commit.keyspace_id,
            at,
        ) == catalog_at(roots, commits, commit.keyspace_id, at),
    decreases commits.len(),
{
    let longer = commits.insert(place, commit);
    let index = commit.shard_index as int;
    let moved = roots.update(index, commit.new_shard);
    if place == commits.len() {
        assert(longer =~= commits.push(commit));
        law_later_keyspace_commits_leave_the_past(roots, commits, commit, at);
    } else {
        let last = commits.last();
        let shorter = commits.drop_last();
        assert(commits[commits.len() - 1] == last);
        assert(longer.last() == last);
        assert(longer.drop_last() =~= shorter.insert(place, commit));
        assert forall|i: int|
            place <= i < shorter.len() && (#[trigger] shorter[i]).keyspace_id
                == commit.keyspace_id implies shorter[i].shard_index != commit.shard_index
            && shorter[i].shard_index < roots.len() by {
            assert(shorter[i] == commits[i]);
        }
        if last.keyspace_id == commit.keyspace_id && last.commit_seq.0 > at {
            let undone = roots.update(last.shard_index as int, last.old_shard);
            assert(moved.update(last.shard_index as int, last.old_shard) =~= undone.update(
                index,
                commit.new_shard,
            ));
            lemma_inserted_commit_leaves_the_past(undone, shorter, commit, place, at);
        } else {
            lemma_inserted_commit_leaves_the_past(roots, shorter, commit, place, at);
        }
    }
}

/// A commit of one keyspace is nothing to another.
proof fn lemma_inserted_commit_of_another(
    roots: Seq<KeyspaceCatalogShardId>,
    commits: Seq<KeyspaceCommit>,
    commit: KeyspaceCommit,
    place: int,
    keyspace_id: KeyspaceId,
    at: u64,
)
    requires
        0 <= place <= commits.len(),
        keyspace_id != commit.keyspace_id,
    ensures
        catalog_at(roots, commits.insert(place, commit), keyspace_id, at) == catalog_at(
            roots,
            commits,
            keyspace_id,
            at,
        ),
    decreases commits.len(),
{
    let longer = commits.insert(place, commit);
    if place == commits.len() {
        assert(longer.drop_last() =~= commits);
        assert(longer.last() == commit);
    } else {
        let last = commits.last();
        let shorter = commits.drop_last();
        assert(longer.last() == last);
        assert(longer.drop_last() =~= shorter.insert(place, commit));
        let undone = if last.keyspace_id == keyspace_id && last.commit_seq.0 > at {
            roots.update(last.shard_index as int, last.old_shard)
        } else {
            roots
        };
        lemma_inserted_commit_of_another(undone, shorter, commit, place, keyspace_id, at);
    }
}

impl MetadataInner {
    /// Whether what can be told of every keyspace before a commit is what could
    /// be told before.
    #[verifier::opaque]
    pub open spec fn catalogs_kept_until(&self, before: &MetadataInner, until: u64) -> bool {
        &&& forall|id: u128| #[trigger]
            before.keyspace_catalog_shards@.contains_key(id)
                ==> self.keyspace_catalog_shards@.contains_key(id)
                && self.keyspace_catalog_shards@[id] == before.keyspace_catalog_shards@[id]
        &&& forall|keyspace_id: KeyspaceId, at: u64|
            before.has_keyspace(keyspace_id) && at < until ==> #[trigger] self.catalog_then(
                keyspace_id,
                at,
            ) == before.catalog_then(keyspace_id, at)
    }

    /// Whether a keyspace has no commit on a catalog shard from a commit on.
    pub open spec fn shard_settled(
        &self,
        keyspace_id: KeyspaceId,
        shard_index: u32,
        from: CommitSeq,
    ) -> bool {
        forall|i: int|
            0 <= i < self.keyspace_commits@.len() && (
            #[trigger] self.keyspace_commits@[i]).keyspace_id == keyspace_id
                && self.keyspace_commits@[i].commit_seq.0 >= from.0
                ==> self.keyspace_commits@[i].shard_index != shard_index
                && self.keyspace_commits@[i].shard_index < self.catalog_of(keyspace_id).len()
    }

    /// A commit that is put where it belongs leaves what was before it.
    pub proof fn lemma_inserted_commit_keeps_catalogs(
        &self,
        before: &MetadataInner,
        commit: KeyspaceCommit,
        place: int,
    )
        requires
            before.has_keyspace(commit.keyspace_id),
            commit.shard_index < before.catalog_of(commit.keyspace_id).len(),
            before.catalog_of(commit.keyspace_id)[commit.shard_index as int] == commit.old_shard,
            before.shard_settled(commit.keyspace_id, commit.shard_index, commit.commit_seq),
            0 <= place <= before.keyspace_commits@.len(),
            forall|i: int|
                place <= i < before.keyspace_commits@.len() ==> (
                #[trigger] before.keyspace_commits@[i]).commit_seq.0 >= commit.commit_seq.0,
            self.keyspace_commits@ == before.keyspace_commits@.insert(place, commit),
            self.catalog_of(commit.keyspace_id) == before.catalog_of(commit.keyspace_id).update(
                commit.shard_index as int,
                commit.new_shard,
            ),
            self.keyspace_heads@.remove(commit.keyspace_id.0) == before.keyspace_heads@.remove(
                commit.keyspace_id.0,
            ),
            forall|id: u128| #[trigger]
                before.keyspace_catalog_shards@.contains_key(id)
                    ==> self.keyspace_catalog_shards@.contains_key(id)
                    && self.keyspace_catalog_shards@[id] == before.keyspace_catalog_shards@[id],
        ensures
            self.catalogs_kept_until(before, commit.commit_seq.0),
    {
        reveal(MetadataInner::catalogs_kept_until);
        assert forall|k: KeyspaceId, at: u64|
            before.has_keyspace(k) && at < commit.commit_seq.0 implies #[trigger] self.catalog_then(
            k,
            at,
        ) == before.catalog_then(k, at) by {
            if k == commit.keyspace_id {
                lemma_inserted_commit_leaves_the_past(
                    before.catalog_of(k),
                    before.keyspace_commits@,
                    commit,
                    place,
                    at,
                );
            } else {
                assert(k.0 != commit.keyspace_id.0);
                assert(self.keyspace_heads@.remove(commit.keyspace_id.0)[k.0]
                    == self.keyspace_heads@[k.0]);
                assert(before.keyspace_heads@.remove(commit.keyspace_id.0)[k.0]
                    == before.keyspace_heads@[k.0]);
                lemma_inserted_commit_of_another(
                    before.catalog_of(k),
                    before.keyspace_commits@,
                    commit,
                    place,
                    k,
                    at,
                );
            }
        }
    }

    /// Whether a keyspace was made, from another one, after a commit.
    pub open spec fn born_after(&self, keyspace_id: KeyspaceId, at: u64) -> bool {
        self.keyspace_births@.contains_key(keyspace_id.0)
            && self.keyspace_births@[keyspace_id.0].0 > at
    }

    /// The catalog of a keyspace at a commit.
    pub open spec fn catalog_then(&self, keyspace_id: KeyspaceId, at: u64) -> Seq<
        KeyspaceCatalogShardId,
    > {
        catalog_at(self.catalog_of(keyspace_id), self.keyspace_commits@, keyspace_id, at)
    }

    /// Whether two states have the same keyspaces with the same commits.
    pub open spec fn same_catalogs(&self, other: &MetadataInner) -> bool {
        &&& self.keyspace_heads == other.keyspace_heads
        &&& self.keyspace_commits == other.keyspace_commits
        &&& self.keyspace_catalog_shards == other.keyspace_catalog_shards
    }

    /// Whether what can be told of every keyspace's past is what could be told
    /// before.
    #[verifier::opaque]
    pub open spec fn catalogs_past_kept(&self, before: &MetadataInner) -> bool {
        &&& forall|id: u128| #[trigger]
            before.keyspace_catalog_shards@.contains_key(id)
                ==> self.keyspace_catalog_shards@.contains_key(id)
                && self.keyspace_catalog_shards@[id] == before.keyspace_catalog_shards@[id]
        &&& forall|keyspace_id: KeyspaceId, at: u64|
            before.has_keyspace(keyspace_id) && at < before.next_commit_seq
                ==> #[trigger] self.catalog_then(keyspace_id, at) == before.catalog_then(
                keyspace_id,
                at,
            )
    }

    /// A state has its own past.
    pub proof fn lemma_own_catalogs_past(&self)
        ensures
            self.catalogs_past_kept(self),
    {
        reveal(MetadataInner::catalogs_past_kept);
    }

    /// The past of keyspaces stays through changes of anything else.
    pub proof fn lemma_catalogs_past_carried(
        &self,
        later: &MetadataInner,
        earlier: &MetadataInner,
        before: &MetadataInner,
    )
        requires
            later.catalogs_past_kept(earlier),
            self.same_catalogs(later),
            earlier.same_catalogs(before),
            earlier.next_commit_seq == before.next_commit_seq,
        ensures
            self.catalogs_past_kept(before),
    {
        reveal(MetadataInner::catalogs_past_kept);
        assert forall|k: KeyspaceId, at: u64|
            before.has_keyspace(k) && at < before.next_commit_seq implies #[trigger] self.catalog_then(
            k,
            at,
        ) == before.catalog_then(k, at) by {
            assert(later.catalog_then(k, at) == earlier.catalog_then(k, at));
        }
    }

    /// A commit leaves the past of every keyspace.
    pub proof fn lemma_commit_keeps_catalogs_past(
        &self,
        before: &MetadataInner,
        commit: KeyspaceCommit,
    )
        requires
            before.has_keyspace(commit.keyspace_id),
            commit.commit_seq.0 == before.next_commit_seq,
            commit.shard_index < before.catalog_of(commit.keyspace_id).len(),
            before.catalog_of(commit.keyspace_id)[commit.shard_index as int] == commit.old_shard,
            self.catalog_of(commit.keyspace_id) == before.catalog_of(commit.keyspace_id).update(
                commit.shard_index as int,
                commit.new_shard,
            ),
            self.keyspace_heads@.remove(commit.keyspace_id.0) == before.keyspace_heads@.remove(
                commit.keyspace_id.0,
            ),
            self.keyspace_commits@ == before.keyspace_commits@.push(commit),
            forall|id: u128| #[trigger]
                before.keyspace_catalog_shards@.contains_key(id)
                    ==> self.keyspace_catalog_shards@.contains_key(id)
                    && self.keyspace_catalog_shards@[id] == before.keyspace_catalog_shards@[id],
        ensures
            self.catalogs_past_kept(before),
    {
        reveal(MetadataInner::catalogs_past_kept);
        assert forall|k: KeyspaceId, at: u64|
            before.has_keyspace(k) && at < before.next_commit_seq implies #[trigger] self.catalog_then(
            k,
            at,
        ) == before.catalog_then(k, at) by {
            if k == commit.keyspace_id {
                law_later_keyspace_commits_leave_the_past(
                    before.catalog_of(k),
                    before.keyspace_commits@,
                    commit,
                    at,
                );
            } else {
                assert(k.0 != commit.keyspace_id.0);
                assert(self.keyspace_heads@.remove(commit.keyspace_id.0)[k.0]
                    == self.keyspace_heads@[k.0]);
                assert(before.keyspace_heads@.remove(commit.keyspace_id.0)[k.0]
                    == before.keyspace_heads@[k.0]);
                assert(self.keyspace_commits@.drop_last() =~= before.keyspace_commits@);
                assert(self.keyspace_commits@.last() == commit);
            }
        }
    }

    /// Whether history tells of a keyspace at a commit.
    pub open spec fn keyspace_known_at(&self, keyspace_id: KeyspaceId, at: u64) -> bool {
        &&& self.has_keyspace(keyspace_id)
        &&& at >= self.history_floor
        &&& !self.born_after(keyspace_id, at)
    }

    /// Whether the recorded commits of a keyspace lead back to stored shards.
    pub open spec fn keyspace_past_sound(&self, keyspace_id: KeyspaceId, at: u64) -> bool {
        &&& commits_fit(
            self.keyspace_commits@,
            keyspace_id,
            at,
            self.catalog_of(keyspace_id).len() as int,
        )
        &&& catalog_roots_wf(self.keyspace_catalog_shards@, self.catalog_then(keyspace_id, at))
    }

    /// The catalog and the number of files of a keyspace at a commit.
    pub fn replay_keyspace_root(
        &self,
        keyspace_id: KeyspaceId,
        at: CommitSeq,
        block_size: Ghost<u64>,
    ) -> (result: Result<(Vec<KeyspaceCatalogShardId>, usize), StorageError>)
        requires
            self.files_wf(block_size@),
        ensures
            result is Ok <==> self.keyspace_known_at(keyspace_id, at.0)
                && self.keyspace_past_sound(keyspace_id, at.0),
            result matches Ok((roots, count)) ==> {
                &&& roots@ == self.catalog_then(keyspace_id, at.0)
                &&& roots@.len() == self.catalog_of(keyspace_id).len()
                &&& count == count_at(
                    self.keyspace_heads@[keyspace_id.0].file_count,
                    self.keyspace_commits@,
                    keyspace_id,
                    at.0,
                )
            },
            result matches Err(error) ==> if self.keyspace_known_at(keyspace_id, at.0) {
                error is Corrupt
            } else {
                error == (StorageError::NotFound { kind: "keyspace", id: keyspace_id.0 })
            },
    {
        let head = match self.keyspace_heads.get(keyspace_id.raw()) {
            Some(head) => head,
            None => return Err(StorageError::not_found("keyspace", keyspace_id.raw())),
        };
        assert(self.keyspace_heads@.contains_key(keyspace_id.0));
        if at.0 < self.history_floor {
            return Err(StorageError::not_found("keyspace", keyspace_id.raw()));
        }
        match self.keyspace_births.get(keyspace_id.raw()) {
            Some(birth) => {
                if birth.0 > at.0 {
                    return Err(StorageError::not_found("keyspace", keyspace_id.raw()));
                }
            },
            None => {},
        }
        let mut roots = copy_vec(&head.shard_roots);
        let mut count: usize = head.file_count;
        let mut left: usize = self.keyspace_commits.len();
        let ghost commits = self.keyspace_commits@;
        assert(commits.take(left as int) =~= commits);
        while left > 0
            invariant
                left <= commits.len(),
                commits == self.keyspace_commits@,
                self.keyspace_known_at(keyspace_id, at.0),
                roots@.len() == self.catalog_of(keyspace_id).len(),
                catalog_at(roots@, commits.take(left as int), keyspace_id, at.0)
                    == self.catalog_then(keyspace_id, at.0),
                count_at(count, commits.take(left as int), keyspace_id, at.0) == count_at(
                    self.keyspace_heads@[keyspace_id.0].file_count,
                    commits,
                    keyspace_id,
                    at.0,
                ),
                forall|i: int|
                    left <= i < commits.len() && (#[trigger] commits[i]).keyspace_id == keyspace_id
                        && commits[i].commit_seq.0 > at.0 ==> commits[i].shard_index
                        < roots@.len(),
            decreases left,
        {
            proof {
                assert(commits.take(left as int).drop_last() =~= commits.take(left - 1));
            }
            left = left - 1;
            let commit = self.keyspace_commits[left];
            if commit.keyspace_id.0 == keyspace_id.0 && commit.commit_seq.0 > at.0 {
                if commit.shard_index as usize >= roots.len() {
                    assert(commits[left as int].shard_index >= roots@.len());
                    return Err(StorageError::corrupt("keyspace commit names a missing shard"));
                }
                roots.set(commit.shard_index as usize, commit.old_shard);
                count = commit.old_file_count;
            }
        }
        assert(commits.take(0) =~= Seq::<KeyspaceCommit>::empty());
        let mut next: usize = 0;
        while next < roots.len()
            invariant
                next <= roots@.len(),
                commits_fit(self.keyspace_commits@, keyspace_id, at.0, roots@.len() as int),
                self.keyspace_known_at(keyspace_id, at.0),
                roots@.len() == self.catalog_of(keyspace_id).len(),
                roots@ == self.catalog_then(keyspace_id, at.0),
                forall|i: int|
                    0 <= i < next ==> self.keyspace_catalog_shards@.contains_key(
                        (#[trigger] roots@[i]).0,
                    ),
            decreases roots@.len() - next,
        {
            if !self.keyspace_catalog_shards.contains_key(roots[next].raw()) {
                assert(!self.keyspace_catalog_shards@.contains_key(roots@[next as int].0));
                return Err(StorageError::corrupt("keyspace history names a missing shard"));
            }
            next = next + 1;
        }
        Ok((roots, count))
    }

    /// Whether a checkpoint is one of a keyspace, with its root kept.
    pub open spec fn is_keyspace_checkpoint(
        &self,
        keyspace_id: KeyspaceId,
        checkpoint_id: CheckpointId,
    ) -> bool {
        &&& self.checkpoints@.contains_key(checkpoint_id.0)
        &&& self.checkpoints@[checkpoint_id.0].owner == MappingOwner::NativeKeyspace(keyspace_id)
        &&& self.checkpoints@[checkpoint_id.0].roots matches CheckpointRoots::NativeKeyspace(root)
            && self.keyspace_roots@.contains_key(root.0)
    }

    /// Whether a keyspace can be restored at a point.
    pub open spec fn has_keyspace_point(&self, keyspace_id: KeyspaceId, point: RestorePoint) -> bool {
        match point {
            RestorePoint::Checkpoint(id) => self.is_keyspace_checkpoint(keyspace_id, id),
            _ => self.keyspace_known_at(keyspace_id, MetadataInner::commit_of_point(point)->0)
                && self.keyspace_past_sound(keyspace_id, MetadataInner::commit_of_point(point)->0),
        }
    }

    /// The catalog of a keyspace at a point.
    pub open spec fn catalog_at_point(&self, keyspace_id: KeyspaceId, point: RestorePoint) -> Seq<
        KeyspaceCatalogShardId,
    > {
        match point {
            RestorePoint::Checkpoint(id) => self.keyspace_roots@[(
            self.checkpoints@[id.0].roots->NativeKeyspace_0).0].shard_roots@,
            _ => self.catalog_then(keyspace_id, MetadataInner::commit_of_point(point)->0),
        }
    }

    /// How many files a keyspace had at a point.
    pub open spec fn count_at_point(&self, keyspace_id: KeyspaceId, point: RestorePoint) -> usize {
        match point {
            RestorePoint::Checkpoint(id) => self.keyspace_roots@[(
            self.checkpoints@[id.0].roots->NativeKeyspace_0).0].file_count,
            _ => count_at(
                self.keyspace_heads@[keyspace_id.0].file_count,
                self.keyspace_commits@,
                keyspace_id,
                MetadataInner::commit_of_point(point)->0,
            ),
        }
    }

    fn find_catalog(
        &self,
        keyspace_id: KeyspaceId,
        point: RestorePoint,
        block_size: Ghost<u64>,
    ) -> (result: Result<(Vec<KeyspaceCatalogShardId>, usize), StorageError>)
        requires
            self.files_wf(block_size@),
        ensures
            result is Ok <==> self.has_keyspace_point(keyspace_id, point),
            result matches Ok((roots, count)) ==> roots@ == self.catalog_at_point(
                keyspace_id,
                point,
            ) && catalog_roots_wf(self.keyspace_catalog_shards@, roots@) && count
                == self.count_at_point(keyspace_id, point),
            result matches Err(error) ==> error is NotFound || error is Corrupt,
    {
        let at = match point {
            RestorePoint::Commit(seq) => seq,
            RestorePoint::Time(time) => CommitSeq(time.0),
            RestorePoint::Checkpoint(id) => {
                let root = match self.checkpoints.get(id.raw()) {
                    Some(checkpoint) => {
                        let owned = match checkpoint.owner {
                            MappingOwner::NativeKeyspace(owner) => owner.0 == keyspace_id.0,
                            _ => false,
                        };
                        if !owned {
                            return Err(StorageError::not_found("checkpoint", id.raw()));
                        }
                        match &checkpoint.roots {
                            CheckpointRoots::NativeKeyspace(root) => *root,
                            _ => return Err(StorageError::not_found("checkpoint", id.raw())),
                        }
                    },
                    None => return Err(StorageError::not_found("checkpoint", id.raw())),
                };
                return match self.keyspace_roots.get(root.raw()) {
                    Some(kept) => {
                        assert(self.keyspace_roots@.contains_key(root.0));
                        Ok((copy_vec(&kept.shard_roots), kept.file_count))
                    },
                    None => Err(StorageError::not_found("keyspace_root", root.raw())),
                };
            },
        };
        self.replay_keyspace_root(keyspace_id, at, block_size)
    }
}

impl LocalCoordinator {
    /// Records what a keyspace holds now.
    #[verifier::rlimit(40)]
    pub fn checkpoint_keyspace(&mut self, keyspace_id: KeyspaceId) -> (result: Result<
        CheckpointId,
        StorageError,
    >)
        requires
            old(self).wf(),
        ensures
            final(self).wf(),
            final(self).keeps_store(old(self)),
            final(self).storage_nodes == old(self).storage_nodes,
            final(self).metadata.keyspace_heads == old(self).metadata.keyspace_heads,
            final(self).metadata.keyspace_catalog_shards == old(
                self,
            ).metadata.keyspace_catalog_shards,
            final(self).metadata.device_heads == old(self).metadata.device_heads,
            final(self).metadata.device_specs == old(self).metadata.device_specs,
            result is Ok <==> old(self).metadata.has_keyspace(keyspace_id) && old(
                self,
            ).metadata.next_commit_seq < u64::MAX && old(self).metadata.next_checkpoint_id
                < u128::MAX && old(self).metadata.next_keyspace_root_id < u128::MAX,
            result matches Ok(id) ==> {
                &&& id.0 == old(self).metadata.next_checkpoint_id
                &&& final(self).metadata.has_keyspace_point(
                    keyspace_id,
                    RestorePoint::Checkpoint(id),
                )
                &&& final(self).metadata.catalog_at_point(keyspace_id, RestorePoint::Checkpoint(id))
                    == old(self).metadata.catalog_of(keyspace_id)
                &&& final(self).metadata.count_at_point(keyspace_id, RestorePoint::Checkpoint(id))
                    == old(self).metadata.keyspace_heads@[keyspace_id.0].file_count
            },
            !old(self).metadata.has_keyspace(keyspace_id) ==> result == Err::<
                CheckpointId,
                StorageError,
            >(StorageError::NotFound { kind: "keyspace", id: keyspace_id.0 }),
            result is Err ==> *final(self) == *old(self),
            result matches Ok(id) ==> {
                let made = final(self).metadata.checkpoints@[id.0];
                &&& final(self).metadata.checkpoints@.contains_key(id.0)
                &&& final(self).metadata.checkpoints@.remove(id.0) == old(
                    self,
                ).metadata.checkpoints@.remove(id.0)
                &&& made.checkpoint_id == id
                &&& made.commit_seq.0 == old(self).metadata.next_commit_seq
                &&& made.time.0 == old(self).metadata.next_commit_seq
                &&& made.owner == MappingOwner::NativeKeyspace(keyspace_id)
                &&& final(self).metadata.next_commit_seq == old(self).metadata.next_commit_seq + 1
                &&& final(self).metadata.next_checkpoint_id == id.0 + 1
                &&& *final(self) == (LocalCoordinator {
                    metadata: MetadataInner {
                        checkpoints: final(self).metadata.checkpoints,
                        next_commit_seq: final(self).metadata.next_commit_seq,
                        next_checkpoint_id: final(self).metadata.next_checkpoint_id,
                        keyspace_roots: final(self).metadata.keyspace_roots,
                        next_keyspace_root_id: final(self).metadata.next_keyspace_root_id,
                        ..old(self).metadata
                    },
                    ..*old(self)
                })
                &&& final(self).metadata.next_keyspace_root_id == old(
                    self,
                ).metadata.next_keyspace_root_id + 1
                &&& final(self).metadata.keyspace_roots@.remove(
                    old(self).metadata.next_keyspace_root_id,
                ) == old(self).metadata.keyspace_roots@.remove(
                    old(self).metadata.next_keyspace_root_id,
                )
            },
    {
        let ghost before = *self;
        let ghost bs = before.block_size();
        let (shard_roots, file_count) = match self.metadata.keyspace_heads.get(keyspace_id.raw()) {
            Some(head) => (copy_vec(&head.shard_roots), head.file_count),
            None => return Err(StorageError::not_found("keyspace", keyspace_id.raw())),
        };
        assert(self.metadata.keyspace_heads@.contains_key(keyspace_id.0));
        if self.metadata.next_commit_seq == u64::MAX {
            return Err(StorageError::conflict("commit sequence overflow"));
        }
        if self.metadata.next_checkpoint_id == u128::MAX {
            return Err(StorageError::conflict("checkpoint id overflow"));
        }
        if self.metadata.next_keyspace_root_id == u128::MAX {
            return Err(StorageError::conflict("keyspace root id overflow"));
        }
        let seq = CommitSeq(self.metadata.next_commit_seq);
        let id = CheckpointId(self.metadata.next_checkpoint_id);
        let root_id = KeyspaceRootId(self.metadata.next_keyspace_root_id);
        self.metadata.next_commit_seq = self.metadata.next_commit_seq + 1;
        self.metadata.next_checkpoint_id = self.metadata.next_checkpoint_id + 1;
        self.metadata.next_keyspace_root_id = self.metadata.next_keyspace_root_id + 1;
        self.metadata.keyspace_roots.insert(
            root_id.raw(),
            KeyspaceRoot { root_id, shard_roots, file_count },
        );
        self.metadata.checkpoints.insert(
            id.raw(),
            Checkpoint {
                checkpoint_id: id,
                commit_seq: seq,
                time: LogicalTime(seq.0),
                owner: MappingOwner::NativeKeyspace(keyspace_id),
                roots: CheckpointRoots::NativeKeyspace(root_id),
            },
        );
        proof {
            assert(self.metadata.checkpoints@.remove(id.0)
                =~= before.metadata.checkpoints@.remove(id.0));
            assert(self.metadata.keyspace_roots@.remove(root_id.0)
                =~= before.metadata.keyspace_roots@.remove(root_id.0));
            assert forall|c: u128| #[trigger] self.metadata.checkpoints@.contains_key(
                c,
            ) implies checkpoint_wf(
                self.nodes(),
                self.metadata.device_specs@,
                self.metadata.checkpoints@[c],
                bs,
            ) by {
                if c != id.0 {
                    assert(before.metadata.checkpoints@.contains_key(c));
                }
            }
            assert(self.metadata.devices_wf(bs));
            assert forall|r: u128| #[trigger] self.metadata.keyspace_roots@.contains_key(
                r,
            ) implies r < self.metadata.next_keyspace_root_id && catalog_roots_wf(
                self.metadata.keyspace_catalog_shards@,
                self.metadata.keyspace_roots@[r].shard_roots@,
            ) by {
                if r != root_id.0 {
                    assert(before.metadata.keyspace_roots@.contains_key(r));
                }
            }
            assert(self.metadata.files_wf(bs));
        }
        Ok(id)
    }

    /// Makes a keyspace that holds what another one held at a point.
    #[verifier::rlimit(40)]
    pub fn restore_keyspace(&mut self, source: KeyspaceId, point: RestorePoint) -> (result: Result<
        KeyspaceId,
        StorageError,
    >)
        requires
            old(self).wf(),
        ensures
            final(self).wf(),
            final(self).keeps_store(old(self)),
            final(self).storage_nodes == old(self).storage_nodes,
            final(self).metadata.device_heads == old(self).metadata.device_heads,
            final(self).metadata.device_specs == old(self).metadata.device_specs,
            final(self).nodes() == old(self).nodes(),
            result is Ok <==> old(self).metadata.has_keyspace_point(source, point) && old(
                self,
            ).metadata.next_keyspace_id < u128::MAX && old(self).metadata.next_commit_seq
                < u64::MAX,
            result matches Ok(target) ==> {
                &&& !old(self).metadata.has_keyspace(target)
                &&& final(self).metadata.has_keyspace(target)
                &&& forall|f: FileId| #[trigger]
                    final(self).metadata.file_head(target, f) == catalog_head(
                        old(self).metadata.keyspace_catalog_shards@,
                        old(self).metadata.catalog_at_point(source, point),
                        f,
                    )
                &&& forall|k: KeyspaceId, f: FileId|
                    old(self).metadata.has_keyspace(k) ==> #[trigger] final(self).metadata.file_head(k, f) == old(self).metadata.file_head(k, f)
            },
            result matches Err(error) ==> error is NotFound || error is Corrupt
                || error is Conflict,
            result is Err ==> final(self).metadata == old(self).metadata,
            *final(self) == (LocalCoordinator {
                metadata: MetadataInner {
                    keyspace_heads: final(self).metadata.keyspace_heads,
                    keyspace_births: final(self).metadata.keyspace_births,
                    next_keyspace_id: final(self).metadata.next_keyspace_id,
                    next_commit_seq: final(self).metadata.next_commit_seq,
                    ..old(self).metadata
                },
                observability: final(self).observability,
                ..*old(self)
            }),
            result matches Ok(target) ==> {
                let seq = CommitSeq(old(self).metadata.next_commit_seq);
                let head = final(self).metadata.keyspace_heads@[target.0];
                &&& final(self).metadata.keyspace_heads@.remove(target.0) == old(
                    self,
                ).metadata.keyspace_heads@
                &&& head.keyspace_id == target
                &&& head.generation == KeyspaceGeneration(1)
                &&& head.latest_commit == seq
                &&& head.shard_roots@ == old(self).metadata.catalog_at_point(source, point)
                &&& head.file_count == old(self).metadata.count_at_point(source, point)
                &&& final(self).metadata.keyspace_births@ == old(
                    self,
                ).metadata.keyspace_births@.insert(target.0, seq)
                &&& final(self).metadata.next_commit_seq == seq.0 + 1
                &&& final(self).metadata.next_keyspace_id == if target.0 >= old(
                    self,
                ).metadata.next_keyspace_id {
                    target.0 + 1
                } else {
                    old(self).metadata.next_keyspace_id as int
                }
            },
            result is Err ==> *final(self) == *old(self),
            result matches Ok(target) ==> target.0 == old(self).metadata.next_keyspace_id,
    {
        let ghost before = *self;
        let ghost bs = before.block_size();
        let (shard_roots, file_count) = match self.metadata.find_catalog(
            source,
            point,
            Ghost(bs),
        ) {
            Ok(found) => found,
            Err(error) => return Err(error),
        };
        if self.metadata.next_keyspace_id == u128::MAX {
            return Err(StorageError::conflict("keyspace id overflow"));
        }
        if self.metadata.next_commit_seq == u64::MAX {
            return Err(StorageError::conflict("commit sequence overflow"));
        }
        let target = KeyspaceId(self.metadata.next_keyspace_id);
        let seq = CommitSeq(self.metadata.next_commit_seq);
        self.metadata.next_keyspace_id = self.metadata.next_keyspace_id + 1;
        self.metadata.next_commit_seq = self.metadata.next_commit_seq + 1;
        assert(!self.metadata.keyspace_heads@.contains_key(target.0));
        let ghost roots = shard_roots@;
        self.metadata.keyspace_heads.insert(
            target.raw(),
            KeyspaceHead {
                keyspace_id: target,
                generation: KeyspaceGeneration(1),
                shard_roots,
                file_count,
                latest_commit: seq,
            },
        );
        self.metadata.keyspace_births.insert(target.raw(), seq);
        proof {
            assert(self.metadata.keyspace_heads@.remove(target.0)
                =~= before.metadata.keyspace_heads@);
            assert forall|k: u128| #[trigger] self.metadata.keyspace_heads@.contains_key(
                k,
            ) implies k < self.metadata.next_keyspace_id
                && self.metadata.keyspace_heads@[k].keyspace_id.0 == k && catalog_roots_wf(
                self.metadata.keyspace_catalog_shards@,
                self.metadata.keyspace_heads@[k].shard_roots@,
            ) by {
                if k != target.0 {
                    assert(before.metadata.keyspace_heads@.contains_key(k));
                }
            }
            assert(self.metadata.files_wf(bs));
            assert(self.metadata.devices_wf(bs));
            assert forall|k: KeyspaceId, f: FileId|
                before.metadata.has_keyspace(k) implies #[trigger] self.metadata.file_head(k, f)
                == before.metadata.file_head(k, f) by {
                assert(k.0 != target.0);
            }
        }
        self.record_event(StorageEventKind::KeyspaceRestored, None, None, Some(seq));
        Ok(target)
    }
}

impl LocalCoordinator {
    /// Makes a keyspace that holds what another one holds. Neither sees later
    /// writes to the other.
    #[verifier::rlimit(40)]
    pub fn snapshot_keyspace(
        &mut self,
        source: KeyspaceId,
        request: &SnapshotKeyspaceRequest,
    ) -> (result: Result<KeyspaceId, StorageError>)
        requires
            old(self).wf(),
        ensures
            final(self).wf(),
            final(self).keeps_store(old(self)),
            final(self).storage_nodes == old(self).storage_nodes,
            final(self).metadata.device_heads == old(self).metadata.device_heads,
            final(self).metadata.device_specs == old(self).metadata.device_specs,
            final(self).nodes() == old(self).nodes(),
            result is Ok <==> old(self).metadata.has_keyspace(source) && (match request.target {
                Some(wanted) => !old(self).metadata.has_keyspace(wanted) && wanted.0 < u128::MAX,
                None => old(self).metadata.next_keyspace_id < u128::MAX,
            }) && old(self).metadata.next_commit_seq < u64::MAX,
            result matches Ok(target) ==> {
                &&& !old(self).metadata.has_keyspace(target)
                &&& request.target matches Some(wanted) ==> target == wanted
                &&& final(self).metadata.has_keyspace(target)
                &&& forall|f: FileId| #[trigger]
                    final(self).metadata.file_head(target, f) == old(self).metadata.file_head(
                        source,
                        f,
                    )
                &&& forall|k: KeyspaceId, f: FileId|
                    old(self).metadata.has_keyspace(k) ==> #[trigger] final(self).metadata.file_head(k, f) == old(self).metadata.file_head(k, f)
            },
            !old(self).metadata.has_keyspace(source) ==> result == Err::<KeyspaceId, StorageError>(
                StorageError::NotFound { kind: "keyspace", id: source.0 },
            ),
            result matches Err(error) ==> error is NotFound || error is Conflict,
            result is Err ==> final(self).metadata == old(self).metadata,
            *final(self) == (LocalCoordinator {
                metadata: MetadataInner {
                    keyspace_heads: final(self).metadata.keyspace_heads,
                    keyspace_births: final(self).metadata.keyspace_births,
                    next_keyspace_id: final(self).metadata.next_keyspace_id,
                    next_commit_seq: final(self).metadata.next_commit_seq,
                    ..old(self).metadata
                },
                ..*old(self)
            }),
            result matches Ok(target) ==> {
                let seq = CommitSeq(old(self).metadata.next_commit_seq);
                let head = final(self).metadata.keyspace_heads@[target.0];
                &&& final(self).metadata.keyspace_heads@.remove(target.0) == old(
                    self,
                ).metadata.keyspace_heads@
                &&& head.keyspace_id == target
                &&& head.generation == KeyspaceGeneration(1)
                &&& head.latest_commit == seq
                &&& head.shard_roots@ == old(self).metadata.catalog_of(source)
                &&& final(self).metadata.keyspace_births@ == old(
                    self,
                ).metadata.keyspace_births@.insert(target.0, seq)
                &&& final(self).metadata.next_commit_seq == seq.0 + 1
                &&& final(self).metadata.next_keyspace_id == if target.0 >= old(
                    self,
                ).metadata.next_keyspace_id {
                    target.0 + 1
                } else {
                    old(self).metadata.next_keyspace_id as int
                }
            },
            result is Err ==> *final(self) == *old(self),
            result matches Ok(target) ==> final(self).metadata.keyspace_heads@[target.0].file_count
                == old(self).metadata.keyspace_heads@[source.0].file_count,
            result matches Ok(target) ==> request.target is None ==> target.0 == old(
                self,
            ).metadata.next_keyspace_id,
    {
        let ghost before = *self;
        let ghost bs = before.block_size();
        let (shard_roots, file_count) = match self.metadata.keyspace_heads.get(source.raw()) {
            Some(head) => (copy_vec(&head.shard_roots), head.file_count),
            None => return Err(StorageError::not_found("keyspace", source.raw())),
        };
        assert(self.metadata.keyspace_heads@.contains_key(source.0));
        let target = match request.target {
            Some(wanted) => {
                if self.metadata.keyspace_heads.contains_key(wanted.raw()) {
                    return Err(StorageError::conflict("keyspace already exists"));
                }
                wanted
            },
            None => KeyspaceId(self.metadata.next_keyspace_id),
        };
        if target.raw() == u128::MAX {
            return Err(StorageError::conflict("keyspace id overflow"));
        }
        if self.metadata.next_commit_seq == u64::MAX {
            return Err(StorageError::conflict("commit sequence overflow"));
        }
        let seq = CommitSeq(self.metadata.next_commit_seq);
        self.metadata.next_commit_seq = self.metadata.next_commit_seq + 1;
        if target.raw() >= self.metadata.next_keyspace_id {
            self.metadata.next_keyspace_id = target.raw() + 1;
        }
        self.metadata.keyspace_heads.insert(
            target.raw(),
            KeyspaceHead {
                keyspace_id: target,
                generation: KeyspaceGeneration(1),
                shard_roots,
                file_count,
                latest_commit: seq,
            },
        );
        self.metadata.keyspace_births.insert(target.raw(), seq);
        proof {
            assert(self.metadata.keyspace_heads@.remove(target.0)
                =~= before.metadata.keyspace_heads@);
            assert forall|k: u128| #[trigger] self.metadata.keyspace_heads@.contains_key(
                k,
            ) implies k < self.metadata.next_keyspace_id
                && self.metadata.keyspace_heads@[k].keyspace_id.0 == k && catalog_roots_wf(
                self.metadata.keyspace_catalog_shards@,
                self.metadata.keyspace_heads@[k].shard_roots@,
            ) by {
                if k != target.0 {
                    assert(before.metadata.keyspace_heads@.contains_key(k));
                } else {
                    assert(before.metadata.keyspace_heads@.contains_key(source.0));
                }
            }
            assert(self.metadata.files_wf(bs));
            assert(self.metadata.devices_wf(bs));
            assert forall|k: KeyspaceId, f: FileId|
                before.metadata.has_keyspace(k) implies #[trigger] self.metadata.file_head(k, f)
                == before.metadata.file_head(k, f) by {
                assert(k.0 != target.0);
            }
        }
        Ok(target)
    }
}

} // verus!
