//! A device's past: forks, checkpoints, restores and deletion.
use vstd::prelude::*;

use crate::block_api::{DeleteResult, DeviceSpec, ForkRequest, RestorePoint};
use crate::coordinator::LocalCoordinator;
use crate::device_trees::shards_wf;
use crate::error::StorageError;
use crate::id::{
    CheckpointId, CommitGroupId, CommitSeq, DeviceGeneration, DeviceId, LogicalTime,
    MetadataNodeId,
};
use crate::idmap::is_walk;
use crate::metadata::{
    MetadataInner, checkpoint_wf, head_wf, history_wf, root_of_shard, shard_commit_wf,
};
use crate::metadata_devices::{shard_commits_of, updates_current, with_updates};
use crate::metadata_records::{
    Checkpoint, CheckpointRoots, DeleteRecord, DeviceHead, ForkRecord, MappingOwner, MetadataNode,
    ShardCommit, ShardRootUpdate,
};
use crate::observability::StorageEventKind;
use crate::tree::copy_vec;

verus! {

/// The roots that a device had at a commit: those it has now, with every later
/// commit taken back.
pub open spec fn roots_at(
    roots: Seq<MetadataNodeId>,
    commits: Seq<ShardCommit>,
    device_id: DeviceId,
    at: u64,
) -> Seq<MetadataNodeId>
    decreases commits.len(),
{
    if commits.len() == 0 {
        roots
    } else {
        let last = commits.last();
        let undone = if last.device_id == device_id && last.commit_seq.0 > at {
            roots.update(last.shard_id.0 as int, last.old_root)
        } else {
            roots
        };
        roots_at(undone, commits.drop_last(), device_id, at)
    }
}

/// A device's roots at a commit are the same before and after a later commit.
pub proof fn law_later_commits_leave_the_past(
    roots: Seq<MetadataNodeId>,
    commits: Seq<ShardCommit>,
    device_id: DeviceId,
    updates: Seq<ShardRootUpdate>,
    commit_seq: CommitSeq,
    commit_group: CommitGroupId,
    at: u64,
)
    requires
        updates_current(roots, updates),
        at < commit_seq.0,
    ensures
        roots_at(
            with_updates(roots, updates),
            commits + shard_commits_of(device_id, commit_seq, commit_group, updates),
            device_id,
            at,
        ) == roots_at(roots, commits, device_id, at),
{
    lemma_with_updates(roots, updates);
    lemma_undo_updates(
        roots,
        with_updates(roots, updates),
        commits,
        device_id,
        updates,
        commit_seq,
        commit_group,
        at,
    );
}

/// A commit changes only the shards that it names.
proof fn lemma_with_updates(roots: Seq<MetadataNodeId>, updates: Seq<ShardRootUpdate>)
    requires
        forall|i: int|
            0 <= i < updates.len() ==> (#[trigger] updates[i]).shard_id.0 < roots.len(),
    ensures
        with_updates(roots, updates).len() == roots.len(),
        forall|s: int|
            0 <= s < roots.len() && with_updates(roots, updates)[s] != roots[s] ==> exists|i: int|
                0 <= i < updates.len() && (#[trigger] updates[i]).shard_id.0 == s,
    decreases updates.len(),
{
    if updates.len() > 0 {
        let shorter = updates.drop_last();
        assert forall|i: int| 0 <= i < shorter.len() implies (#[trigger] shorter[i]).shard_id.0
            < roots.len() by {
            assert(shorter[i] == updates[i]);
        }
        lemma_with_updates(roots, shorter);
        assert forall|s: int|
            0 <= s < roots.len() && with_updates(roots, updates)[s] != roots[s] implies exists|
            i: int,
        | 0 <= i < updates.len() && (#[trigger] updates[i]).shard_id.0 == s by {
            if s == updates.last().shard_id.0 {
                assert(updates[updates.len() - 1].shard_id.0 == s);
            } else {
                assert(with_updates(roots, shorter)[s] != roots[s]);
                let i = choose|i: int|
                    0 <= i < shorter.len() && (#[trigger] shorter[i]).shard_id.0 == s;
                assert(updates[i] == shorter[i]);
            }
        }
    }
}

proof fn lemma_undo_updates(
    roots: Seq<MetadataNodeId>,
    current: Seq<MetadataNodeId>,
    commits: Seq<ShardCommit>,
    device_id: DeviceId,
    updates: Seq<ShardRootUpdate>,
    commit_seq: CommitSeq,
    commit_group: CommitGroupId,
    at: u64,
)
    requires
        updates_current(roots, updates),
        at < commit_seq.0,
        current.len() == roots.len(),
        forall|s: int|
            0 <= s < roots.len() && current[s] != roots[s] ==> exists|i: int|
                0 <= i < updates.len() && (#[trigger] updates[i]).shard_id.0 == s,
    ensures
        roots_at(
            current,
            commits + shard_commits_of(device_id, commit_seq, commit_group, updates),
            device_id,
            at,
        ) == roots_at(roots, commits, device_id, at),
    decreases updates.len(),
{
    let added = shard_commits_of(device_id, commit_seq, commit_group, updates);
    if updates.len() == 0 {
        assert(commits + added =~= commits);
        assert(current =~= roots);
    } else {
        let n = updates.len() - 1;
        let last = updates[n];
        let shorter = updates.drop_last();
        let all = commits + added;
        assert(all.last() == added[n]);
        assert(all.drop_last() =~= commits + shard_commits_of(
            device_id,
            commit_seq,
            commit_group,
            shorter,
        ));
        let undone = current.update(last.shard_id.0 as int, last.old_root);
        assert(roots[last.shard_id.0 as int] == last.old_root);
        assert(updates_current(roots, shorter)) by {
            assert forall|i: int| 0 <= i < shorter.len() implies (
            #[trigger] shorter[i]).shard_id.0 < roots.len() && roots[shorter[i].shard_id.0 as int]
                == shorter[i].old_root by {
                assert(updates[i] == shorter[i]);
            }
        }
        assert forall|s: int| 0 <= s < roots.len() && undone[s] != roots[s] implies exists|i: int|
            0 <= i < shorter.len() && (#[trigger] shorter[i]).shard_id.0 == s by {
            assert(current[s] != roots[s]);
            let i = choose|i: int|
                0 <= i < updates.len() && (#[trigger] updates[i]).shard_id.0 == s;
            assert(i < n);
            assert(shorter[i] == updates[i]);
        }
        lemma_undo_updates(
            roots,
            undone,
            commits,
            device_id,
            shorter,
            commit_seq,
            commit_group,
            at,
        );
    }
}

/// Roots of the past cover the same blocks as those of now.
proof fn lemma_roots_at_fit(
    nodes: Map<u128, MetadataNode>,
    heads: Map<u128, DeviceHead>,
    roots: Seq<MetadataNodeId>,
    commits: Seq<ShardCommit>,
    device_id: DeviceId,
    at: u64,
)
    requires
        heads.contains_key(device_id.0),
        history_wf(nodes, heads, commits),
        roots.len() == heads[device_id.0].shard_roots@.len(),
        forall|s: int|
            0 <= s < roots.len() ==> root_of_shard(
                nodes,
                heads[device_id.0].shard_roots@,
                s,
                #[trigger] roots[s],
            ),
    ensures
        roots_at(roots, commits, device_id, at).len() == roots.len(),
        forall|s: int|
            0 <= s < roots.len() ==> root_of_shard(
                nodes,
                heads[device_id.0].shard_roots@,
                s,
                #[trigger] roots_at(roots, commits, device_id, at)[s],
            ),
    decreases commits.len(),
{
    if commits.len() > 0 {
        let last = commits.last();
        assert(commits[commits.len() - 1] == last);
        assert(shard_commit_wf(nodes, heads, last));
        let undone = if last.device_id == device_id && last.commit_seq.0 > at {
            roots.update(last.shard_id.0 as int, last.old_root)
        } else {
            roots
        };
        let shorter = commits.drop_last();
        assert forall|i: int| 0 <= i < shorter.len() implies shard_commit_wf(
            nodes,
            heads,
            #[trigger] shorter[i],
        ) by {
            assert(shorter[i] == commits[i]);
        }
        assert forall|s: int| 0 <= s < undone.len() implies root_of_shard(
            nodes,
            heads[device_id.0].shard_roots@,
            s,
            #[trigger] undone[s],
        ) by {
            assert(root_of_shard(nodes, heads[device_id.0].shard_roots@, s, roots[s]));
        }
        lemma_roots_at_fit(nodes, heads, undone, shorter, device_id, at);
    }
}

/// Commits that are not later take nothing back.
proof fn lemma_nothing_later(
    roots: Seq<MetadataNodeId>,
    commits: Seq<ShardCommit>,
    device_id: DeviceId,
    at: u64,
)
    requires
        forall|i: int| 0 <= i < commits.len() ==> (#[trigger] commits[i]).commit_seq.0 <= at,
    ensures
        roots_at(roots, commits, device_id, at) == roots,
    decreases commits.len(),
{
    if commits.len() > 0 {
        assert(commits.last() == commits[commits.len() - 1]);
        let shorter = commits.drop_last();
        assert forall|i: int| 0 <= i < shorter.len() implies (#[trigger] shorter[i]).commit_seq.0
            <= at by {
            assert(shorter[i] == commits[i]);
        }
        lemma_nothing_later(roots, shorter, device_id, at);
    }
}

/// Commits of other devices take nothing back.
proof fn lemma_commits_of_others(
    roots: Seq<MetadataNodeId>,
    commits: Seq<ShardCommit>,
    more: Seq<ShardCommit>,
    device_id: DeviceId,
    at: u64,
)
    requires
        forall|i: int| 0 <= i < more.len() ==> (#[trigger] more[i]).device_id != device_id,
    ensures
        roots_at(roots, commits + more, device_id, at) == roots_at(roots, commits, device_id, at),
    decreases more.len(),
{
    if more.len() == 0 {
        assert(commits + more =~= commits);
    } else {
        let all = commits + more;
        let shorter = more.drop_last();
        assert(all.last() == more[more.len() - 1]);
        assert(all.drop_last() =~= commits + shorter);
        assert forall|i: int| 0 <= i < shorter.len() implies (#[trigger] shorter[i]).device_id
            != device_id by {
            assert(shorter[i] == more[i]);
        }
        lemma_commits_of_others(roots, commits, shorter, device_id, at);
    }
}

impl MetadataInner {
    /// Whether a device was forked or restored from another one after a commit.
    pub open spec fn forked_after(&self, device_id: DeviceId, at: u64) -> bool {
        exists|id: u128| #[trigger]
            self.fork_records@.contains_key(id) && self.fork_records@[id].target == device_id
                && self.fork_records@[id].commit_seq.0 > at
    }

    fn is_forked_after(&self, device_id: DeviceId, at: u64) -> (found: bool)
        ensures
            found == self.forked_after(device_id, at),
    {
        let count = self.fork_records.len();
        let ghost keys = self.fork_records.keys();
        let mut i: usize = 0;
        while i < count
            invariant
                i <= count,
                count == keys.len(),
                keys == self.fork_records.keys(),
                is_walk(keys, self.fork_records@),
                forall|k: int|
                    0 <= k < i ==> !(self.fork_records@[#[trigger] keys[k]].target == device_id
                        && self.fork_records@[keys[k]].commit_seq.0 > at),
            decreases count - i,
        {
            let (id, record) = self.fork_records.entry_at(i);
            assert(keys[i as int] == id);
            if record.target.0 == device_id.0 && record.commit_seq.0 > at {
                assert(self.fork_records@.contains_key(id));
                return true;
            }
            i = i + 1;
        }
        proof {
            if self.forked_after(device_id, at) {
                let id = choose|id: u128| #[trigger]
                    self.fork_records@.contains_key(id) && self.fork_records@[id].target
                        == device_id && self.fork_records@[id].commit_seq.0 > at;
                assert(keys.contains(id));
                let k = choose|k: int| 0 <= k < keys.len() && keys[k] == id;
                assert(!(self.fork_records@[keys[k]].target == device_id
                    && self.fork_records@[keys[k]].commit_seq.0 > at));
            }
        }
        false
    }

    /// The roots that a live or deleted device has.
    pub open spec fn any_roots_of(&self, device_id: DeviceId) -> Seq<MetadataNodeId> {
        if self.device_heads@.contains_key(device_id.0) {
            self.device_heads@[device_id.0].shard_roots@
        } else {
            self.deleted_device_heads@[device_id.0].shard_roots@
        }
    }

    pub open spec fn any_device(&self, device_id: DeviceId) -> bool {
        self.device_heads@.contains_key(device_id.0) || self.deleted_device_heads@.contains_key(
            device_id.0,
        )
    }

    /// The roots that a device had at a commit, as they can be told now.
    pub open spec fn past_roots(&self, device_id: DeviceId, at: u64) -> Seq<MetadataNodeId> {
        roots_at(self.any_roots_of(device_id), self.shard_commits@, device_id, at)
    }

    /// Whether what can be told of every device's past is what could be told
    /// before.
    pub open spec fn past_kept(&self, before: &MetadataInner) -> bool {
        &&& self.fork_records == before.fork_records
        &&& self.deleted_device_heads == before.deleted_device_heads
        &&& forall|device_id: DeviceId, at: u64|
            before.any_device(device_id) && at < before.next_commit_seq
                ==> #[trigger] self.past_roots(device_id, at) == before.past_roots(device_id, at)
    }

    /// At the last commit a device had the roots that it has.
    pub proof fn lemma_present_roots(&self, device_id: DeviceId, block_size: u64)
        requires
            self.devices_wf(block_size),
            self.has_device(device_id),
        ensures
            self.past_roots(device_id, (self.next_commit_seq - 1) as u64) == self.roots_of(
                device_id,
            ),
    {
        lemma_nothing_later(
            self.roots_of(device_id),
            self.shard_commits@,
            device_id,
            (self.next_commit_seq - 1) as u64,
        );
    }

    /// A commit leaves the past of every device.
    pub proof fn lemma_commit_keeps_past(
        &self,
        before: &MetadataInner,
        device_id: DeviceId,
        commit_seq: CommitSeq,
        commit_group: CommitGroupId,
        updates: Seq<ShardRootUpdate>,
    )
        requires
            before.has_device(device_id),
            commit_seq.0 == before.next_commit_seq,
            updates_current(before.roots_of(device_id), updates),
            self.roots_of(device_id) == with_updates(before.roots_of(device_id), updates),
            self.device_heads@.dom() == before.device_heads@.dom(),
            self.device_heads@.remove(device_id.0) == before.device_heads@.remove(device_id.0),
            self.deleted_device_heads == before.deleted_device_heads,
            self.fork_records == before.fork_records,
            self.shard_commits@ == before.shard_commits@ + shard_commits_of(
                device_id,
                commit_seq,
                commit_group,
                updates,
            ),
        ensures
            self.past_kept(before),
    {
        assert forall|d: DeviceId, at: u64|
            before.any_device(d) && at < before.next_commit_seq implies #[trigger] self.past_roots(
            d,
            at,
        ) == before.past_roots(d, at) by {
            assert(self.device_heads@.dom().contains(d.0) == before.device_heads@.dom().contains(
                d.0,
            ));
            if d == device_id {
                law_later_commits_leave_the_past(
                    before.roots_of(d),
                    before.shard_commits@,
                    d,
                    updates,
                    commit_seq,
                    commit_group,
                    at,
                );
            } else {
                assert(d.0 != device_id.0);
                if before.has_device(d) {
                    assert(self.device_heads@.remove(device_id.0)[d.0] == self.device_heads@[d.0]);
                    assert(before.device_heads@.remove(device_id.0)[d.0]
                        == before.device_heads@[d.0]);
                }
                assert(self.any_roots_of(d) == before.any_roots_of(d));
                lemma_commits_of_others(
                    before.any_roots_of(d),
                    before.shard_commits@,
                    shard_commits_of(device_id, commit_seq, commit_group, updates),
                    d,
                    at,
                );
            }
        }
    }

    /// The roots that a device had at a commit.
    #[verifier::rlimit(40)]
    pub fn replay_device_roots(
        &self,
        device_id: DeviceId,
        at: CommitSeq,
        block_size: Ghost<u64>,
    ) -> (result: Result<Vec<MetadataNodeId>, StorageError>)
        requires
            self.devices_wf(block_size@),
        ensures
            result is Ok <==> self.any_device(device_id) && at.0 >= self.history_floor
                && !self.forked_after(device_id, at.0),
            result matches Ok(roots) ==> roots@ == roots_at(
                self.any_roots_of(device_id),
                self.shard_commits@,
                device_id,
                at.0,
            ) && roots@.len() == self.any_roots_of(device_id).len() && shards_wf(
                self.nodes(),
                roots@,
                self.blocks_of(device_id),
            ),
            result matches Err(error) ==> error is NotFound,
    {
        let ghost nodes = self.nodes();
        let mut roots = match self.device_heads.get(device_id.raw()) {
            Some(head) => copy_vec(&head.shard_roots),
            None => match self.deleted_device_heads.get(device_id.raw()) {
                Some(head) => copy_vec(&head.shard_roots),
                None => return Err(StorageError::not_found("device", device_id.raw())),
            },
        };
        if at.0 < self.history_floor || self.is_forked_after(device_id, at.0) {
            return Err(StorageError::not_found("device", device_id.raw()));
        }
        let ghost heads = if self.device_heads@.contains_key(device_id.0) {
            self.device_heads@
        } else {
            self.deleted_device_heads@
        };
        let ghost current = roots@;
        let ghost blocks = self.blocks_of(device_id);
        proof {
            assert(heads.contains_key(device_id.0));
            assert(head_wf(
                nodes,
                self.device_specs@,
                heads[device_id.0],
                device_id.0,
                block_size@,
            ));
            assert(current == heads[device_id.0].shard_roots@);
            assert forall|s: int| 0 <= s < current.len() implies root_of_shard(
                nodes,
                current,
                s,
                #[trigger] current[s],
            ) by {}
            lemma_roots_at_fit(nodes, heads, current, self.shard_commits@, device_id, at.0);
            crate::device_trees::lemma_edited_shards_wf(
                nodes,
                nodes,
                current,
                roots_at(current, self.shard_commits@, device_id, at.0),
                blocks,
            );
        }
        let mut i: usize = self.shard_commits.len();
        assert(self.shard_commits@.take(i as int) =~= self.shard_commits@);
        while i > 0
            invariant
                i <= self.shard_commits@.len(),
                self.devices_wf(block_size@),
                nodes == self.nodes(),
                heads == self.device_heads@ || heads == self.deleted_device_heads@,
                heads.contains_key(device_id.0),
                roots@.len() == current.len(),
                current == heads[device_id.0].shard_roots@,
                roots_at(roots@, self.shard_commits@.take(i as int), device_id, at.0) == roots_at(
                    current,
                    self.shard_commits@,
                    device_id,
                    at.0,
                ),
            decreases i,
        {
            let commit = self.shard_commits[i - 1];
            proof {
                assert(self.shard_commits@.take(i as int).drop_last()
                    =~= self.shard_commits@.take(i - 1));
                assert(self.shard_commits@.take(i as int).last() == commit);
                assert(shard_commit_wf(nodes, heads, self.shard_commits@[i - 1]));
            }
            if commit.device_id.0 == device_id.0 && commit.commit_seq.0 > at.0 {
                let shard: usize = commit.shard_id.0 as usize;
                roots.set(shard, commit.old_root);
            }
            i = i - 1;
        }
        proof {
            assert(self.shard_commits@.take(0) =~= Seq::<ShardCommit>::empty());
        }
        Ok(roots)
    }

    /// The roots that a device had are roots that fit it.
    pub proof fn lemma_roots_then(&self, device_id: DeviceId, at: u64, block_size: u64)
        requires
            self.devices_wf(block_size),
            self.any_device(device_id),
        ensures
            shards_wf(
                self.nodes(),
                roots_at(self.any_roots_of(device_id), self.shard_commits@, device_id, at),
                self.blocks_of(device_id),
            ),
    {
        let nodes = self.nodes();
        let heads = if self.device_heads@.contains_key(device_id.0) {
            self.device_heads@
        } else {
            self.deleted_device_heads@
        };
        let current = heads[device_id.0].shard_roots@;
        assert(heads.contains_key(device_id.0));
        assert(head_wf(nodes, self.device_specs@, heads[device_id.0], device_id.0, block_size));
        assert forall|s: int| 0 <= s < current.len() implies root_of_shard(
            nodes,
            current,
            s,
            #[trigger] current[s],
        ) by {}
        lemma_roots_at_fit(nodes, heads, current, self.shard_commits@, device_id, at);
        crate::device_trees::lemma_edited_shards_wf(
            nodes,
            nodes,
            current,
            roots_at(current, self.shard_commits@, device_id, at),
            self.blocks_of(device_id),
        );
    }

    /// Whether a new device can be made with these roots.
    pub open spec fn adopts(
        &self,
        spec: DeviceSpec,
        roots: Seq<MetadataNodeId>,
        block_size: u64,
    ) -> bool {
        &&& spec.block_size == block_size
        &&& spec.logical_blocks * block_size <= u64::MAX
        &&& roots.len() <= u32::MAX
        &&& shards_wf(self.nodes(), roots, spec.logical_blocks as int)
    }

    /// Makes a device with given roots, as a fork of another one.
    #[verifier::rlimit(60)]
    fn adopt_device(
        &mut self,
        source: DeviceId,
        target: Option<DeviceId>,
        spec: DeviceSpec,
        roots: Vec<MetadataNodeId>,
        block_size: Ghost<u64>,
    ) -> (result: Result<(DeviceId, CommitSeq), StorageError>)
        requires
            old(self).devices_wf(block_size@),
            old(self).adopts(spec, roots@, block_size@),
        ensures
            final(self).devices_wf(block_size@),
            final(self).trees == old(self).trees,
            final(self).same_outside_devices(old(self)),
            result matches Ok((device_id, seq)) ==> {
                &&& !old(self).device_specs@.contains_key(device_id.0)
                &&& !old(self).has_device(device_id)
                &&& target matches Some(wanted) ==> device_id == wanted
                &&& seq.0 == old(self).next_commit_seq
                &&& final(self).next_commit_seq == seq.0 + 1
                &&& final(self).has_device(device_id)
                &&& final(self).roots_of(device_id) == roots@
                &&& final(self).device_heads@[device_id.0].latest_commit == seq
                &&& final(self).device_specs@ == old(self).device_specs@.insert(device_id.0, spec)
                &&& final(self).device_heads@.remove(device_id.0) == old(self).device_heads@
                &&& final(self).shard_commits == old(self).shard_commits
                &&& final(self).deleted_device_heads == old(self).deleted_device_heads
                &&& final(self).fork_records@.contains_key(seq.0 as u128)
                &&& final(self).fork_records@[seq.0 as u128].source == source
                &&& final(self).fork_records@[seq.0 as u128].target == device_id
                &&& final(self).fork_records@[seq.0 as u128].commit_seq == seq
            },
            result is Ok <==> (match target {
                Some(wanted) => !old(self).device_specs@.contains_key(wanted.0) && wanted.0
                    < u128::MAX,
                None => old(self).next_device_id < u128::MAX,
            }) && old(self).next_commit_seq < u64::MAX,
            result matches Err(error) ==> error is Conflict && *final(self) == *old(self),
            *final(self) == (MetadataInner {
                device_specs: final(self).device_specs,
                device_heads: final(self).device_heads,
                fork_records: final(self).fork_records,
                next_device_id: final(self).next_device_id,
                next_commit_seq: final(self).next_commit_seq,
                ..*old(self)
            }),
            result matches Ok((device_id, seq)) ==> {
                &&& final(self).device_heads@[device_id.0].generation == DeviceGeneration(1)
                &&& final(self).device_heads@[device_id.0].device_id == device_id
                &&& final(self).fork_records@[seq.0 as u128].shard_roots@ == roots@
                &&& final(self).fork_records@.remove(seq.0 as u128) == old(
                    self,
                ).fork_records@.remove(seq.0 as u128)
                &&& final(self).next_device_id == if device_id.0 >= old(self).next_device_id {
                    device_id.0 + 1
                } else {
                    old(self).next_device_id as int
                }
                &&& target is None ==> device_id.0 == old(self).next_device_id
            },
    {
        let ghost before = *self;
        let device_id = match target {
            Some(wanted) => {
                if self.device_specs.contains_key(wanted.raw()) || wanted.0 == u128::MAX {
                    return Err(StorageError::conflict("device already exists"));
                }
                wanted
            },
            None => {
                if self.next_device_id == u128::MAX {
                    return Err(StorageError::conflict("device id overflow"));
                }
                DeviceId(self.next_device_id)
            },
        };
        if self.next_commit_seq == u64::MAX {
            return Err(StorageError::conflict("commit sequence overflow"));
        }
        proof {
            if before.device_heads@.contains_key(device_id.0) {
                assert(head_wf(
                    before.nodes(),
                    before.device_specs@,
                    before.device_heads@[device_id.0],
                    device_id.0,
                    block_size@,
                ));
            }
            if before.deleted_device_heads@.contains_key(device_id.0) {
                assert(head_wf(
                    before.nodes(),
                    before.device_specs@,
                    before.deleted_device_heads@[device_id.0],
                    device_id.0,
                    block_size@,
                ));
            }
        }
        let seq = CommitSeq(self.next_commit_seq);
        self.next_commit_seq = self.next_commit_seq + 1;
        if device_id.0 >= self.next_device_id {
            self.next_device_id = device_id.0 + 1;
        }
        let recorded = copy_vec(&roots);
        let head = DeviceHead {
            device_id,
            generation: DeviceGeneration(1),
            shard_roots: roots,
            latest_commit: seq,
        };
        self.device_specs.insert(device_id.raw(), spec);
        self.device_heads.insert(device_id.raw(), head);
        self.fork_records.insert(
            seq.0 as u128,
            ForkRecord { commit_seq: seq, source, target: device_id, shard_roots: recorded },
        );
        proof {
            let id = device_id.0;
            let bs = block_size@;
            let nodes = before.nodes();
            assert(self.device_heads@.remove(id) =~= before.device_heads@);
            assert(self.fork_records@.remove(seq.0 as u128) =~= before.fork_records@.remove(
                seq.0 as u128,
            ));
            assert forall|other: u128| #[trigger] self.device_heads@.contains_key(other) implies other
                < self.next_device_id && head_wf(
                nodes,
                self.device_specs@,
                self.device_heads@[other],
                other,
                bs,
            ) by {
                if other != id {
                    assert(before.device_heads@.contains_key(other));
                }
            }
            assert forall|other: u128| #[trigger] self.deleted_device_heads@.contains_key(
                other,
            ) implies other < self.next_device_id && head_wf(
                nodes,
                self.device_specs@,
                self.deleted_device_heads@[other],
                other,
                bs,
            ) && !self.device_heads@.contains_key(other) by {
                assert(other != id);
            }
            assert forall|i: int| 0 <= i < self.shard_commits@.len() implies shard_commit_wf(
                nodes,
                self.device_heads@,
                #[trigger] self.shard_commits@[i],
            ) && shard_commit_wf(nodes, self.deleted_device_heads@, self.shard_commits@[i]) by {
                assert(before.device_specs@.contains_key(before.shard_commits@[i].device_id.0));
                assert(shard_commit_wf(nodes, before.device_heads@, before.shard_commits@[i]));
                assert(shard_commit_wf(
                    nodes,
                    before.deleted_device_heads@,
                    before.shard_commits@[i],
                ));
            }
            assert forall|c: u128| #[trigger] self.checkpoints@.contains_key(
                c,
            ) implies checkpoint_wf(nodes, self.device_specs@, self.checkpoints@[c], bs) by {
                assert(checkpoint_wf(nodes, before.device_specs@, self.checkpoints@[c], bs));
            }
        }
        Ok((device_id, seq))
    }
}

impl MetadataInner {
    /// The commit that a point in time stands for.
    pub open spec fn commit_of_point(point: RestorePoint) -> Option<u64> {
        match point {
            RestorePoint::Commit(seq) => Some(seq.0),
            RestorePoint::Time(time) => Some(time.0),
            RestorePoint::Checkpoint(_) => None,
        }
    }

    /// Whether a checkpoint is one of a device.
    pub open spec fn is_device_checkpoint(
        &self,
        device_id: DeviceId,
        checkpoint_id: CheckpointId,
    ) -> bool {
        &&& self.checkpoints@.contains_key(checkpoint_id.0)
        &&& self.checkpoints@[checkpoint_id.0].owner == MappingOwner::BlockDevice(device_id)
        &&& self.checkpoints@[checkpoint_id.0].roots is BlockShard
    }

    /// Whether a device can be restored at a point.
    pub open spec fn has_point(&self, device_id: DeviceId, point: RestorePoint) -> bool {
        match point {
            RestorePoint::Checkpoint(id) => self.is_device_checkpoint(device_id, id),
            _ => self.any_device(device_id) && MetadataInner::commit_of_point(point)->0
                >= self.history_floor && !self.forked_after(
                device_id,
                MetadataInner::commit_of_point(point)->0,
            ),
        }
    }

    /// The roots that a device had at a point.
    pub open spec fn roots_at_point(&self, device_id: DeviceId, point: RestorePoint) -> Seq<
        MetadataNodeId,
    > {
        match point {
            RestorePoint::Checkpoint(id) => self.checkpoints@[id.0].roots->BlockShard_0@,
            _ => roots_at(
                self.any_roots_of(device_id),
                self.shard_commits@,
                device_id,
                MetadataInner::commit_of_point(point)->0,
            ),
        }
    }

    fn find_roots(
        &self,
        device_id: DeviceId,
        point: RestorePoint,
        block_size: Ghost<u64>,
    ) -> (result: Result<Vec<MetadataNodeId>, StorageError>)
        requires
            self.devices_wf(block_size@),
        ensures
            result is Ok <==> self.has_point(device_id, point),
            result matches Ok(roots) ==> roots@ == self.roots_at_point(device_id, point)
                && self.device_specs@.contains_key(device_id.0) && self.adopts(
                self.device_specs@[device_id.0],
                roots@,
                block_size@,
            ),
            result matches Err(error) ==> error is NotFound,
    {
        let at = match point {
            RestorePoint::Commit(seq) => seq,
            RestorePoint::Time(time) => CommitSeq(time.0),
            RestorePoint::Checkpoint(id) => {
                match self.checkpoints.get(id.raw()) {
                    Some(checkpoint) => {
                        assert(checkpoint_wf(
                            self.nodes(),
                            self.device_specs@,
                            *checkpoint,
                            block_size@,
                        ));
                        let owned = match checkpoint.owner {
                            MappingOwner::BlockDevice(owner) => owner.0 == device_id.0,
                            _ => false,
                        };
                        if !owned {
                            return Err(StorageError::not_found("checkpoint", id.raw()));
                        }
                        match &checkpoint.roots {
                            CheckpointRoots::BlockShard(roots) => {
                                return Ok(copy_vec(roots));
                            },
                            _ => return Err(StorageError::not_found("checkpoint", id.raw())),
                        }
                    },
                    None => return Err(StorageError::not_found("checkpoint", id.raw())),
                }
            },
        };
        let result = self.replay_device_roots(device_id, at, block_size);
        proof {
            if result is Ok {
                if self.device_heads@.contains_key(device_id.0) {
                    assert(head_wf(
                        self.nodes(),
                        self.device_specs@,
                        self.device_heads@[device_id.0],
                        device_id.0,
                        block_size@,
                    ));
                } else {
                    assert(head_wf(
                        self.nodes(),
                        self.device_specs@,
                        self.deleted_device_heads@[device_id.0],
                        device_id.0,
                        block_size@,
                    ));
                }
            }
        }
        result
    }
}

impl LocalCoordinator {
    /// Whether one device holds what another one's roots lead to.
    pub open spec fn device_holds(
        &self,
        before: &LocalCoordinator,
        device_id: DeviceId,
        roots: Seq<MetadataNodeId>,
    ) -> bool {
        &&& self.metadata.has_device(device_id)
        &&& self.metadata.roots_of(device_id) == roots
        &&& self.nodes() == before.nodes()
        &&& self.segments() == before.segments()
    }

    /// Makes a device that holds what another one holds. Neither sees later
    /// writes to the other.
    pub fn fork_device(&mut self, source: DeviceId, request: &ForkRequest) -> (result: Result<
        DeviceId,
        StorageError,
    >)
        requires
            old(self).wf(),
        ensures
            final(self).wf(),
            final(self).keeps_store(old(self)),
            final(self).storage_nodes == old(self).storage_nodes,
            result is Ok <==> old(self).metadata.has_device(source) && (match request.target {
                Some(wanted) => !old(self).metadata.device_specs@.contains_key(wanted.0)
                    && wanted.0 < u128::MAX,
                None => old(self).metadata.next_device_id < u128::MAX,
            }) && old(self).metadata.next_commit_seq < u64::MAX,
            result matches Ok(target) ==> {
                &&& !old(self).metadata.has_device(target)
                &&& request.target matches Some(wanted) ==> target == wanted
                &&& final(self).metadata.has_device(target)
                &&& final(self).metadata.device_specs@[target.0] == old(
                    self,
                ).metadata.device_specs@[source.0]
                &&& final(self).other_devices_kept(old(self), target)
                &&& forall|byte: int| #[trigger]
                    final(self).device_byte(target, byte) == old(self).device_byte(source, byte)
            },
            !old(self).metadata.has_device(source) ==> (result matches Err(error)
                && error is NotFound),
            result is Err ==> final(self).metadata == old(self).metadata,
            *final(self) == (LocalCoordinator {
                metadata: MetadataInner {
                    device_specs: final(self).metadata.device_specs,
                    device_heads: final(self).metadata.device_heads,
                    fork_records: final(self).metadata.fork_records,
                    next_device_id: final(self).metadata.next_device_id,
                    next_commit_seq: final(self).metadata.next_commit_seq,
                    ..old(self).metadata
                },
                observability: final(self).observability,
                ..*old(self)
            }),
            result matches Ok(target) ==> {
                let seq = old(self).metadata.next_commit_seq;
                let head = final(self).metadata.device_heads@[target.0];
                let record = final(self).metadata.fork_records@[seq as u128];
                &&& final(self).metadata.device_specs@ == old(self).metadata.device_specs@.insert(
                    target.0,
                    old(self).metadata.device_specs@[source.0],
                )
                &&& final(self).metadata.device_heads@.remove(target.0) == old(
                    self,
                ).metadata.device_heads@
                &&& head.device_id == target
                &&& head.generation == DeviceGeneration(1)
                &&& head.latest_commit.0 == seq
                &&& final(self).metadata.next_commit_seq == seq + 1
                &&& final(self).metadata.fork_records@.contains_key(seq as u128)
                &&& final(self).metadata.fork_records@.remove(seq as u128) == old(
                    self,
                ).metadata.fork_records@.remove(seq as u128)
                &&& record.source == source
                &&& record.target == target
                &&& record.commit_seq.0 == seq
                &&& record.shard_roots@ == final(self).metadata.roots_of(target)
                &&& final(self).metadata.next_device_id == if target.0 >= old(
                    self,
                ).metadata.next_device_id {
                    target.0 + 1
                } else {
                    old(self).metadata.next_device_id as int
                }
            },
            result matches Ok(target) ==> final(self).metadata.roots_of(target) == old(
                self,
            ).metadata.roots_of(source),
            result is Err ==> *final(self) == *old(self),
    {
        let ghost before = *self;
        let ghost bs = before.block_size();
        let (roots, spec) = match (
            self.metadata.device_heads.get(source.raw()),
            self.metadata.device_specs.get(source.raw()),
        ) {
            (Some(head), Some(spec)) => (copy_vec(&head.shard_roots), *spec),
            _ => {
                assert(!self.metadata.has_device(source)) by {
                    if self.metadata.has_device(source) {
                        assert(self.metadata.device_heads@.contains_key(source.0));
                    }
                }
                return Err(StorageError::not_found("device", source.raw()));
            },
        };
        assert(self.metadata.device_heads@.contains_key(source.0));
        let adopted = self.metadata.adopt_device(source, request.target, spec, roots, Ghost(bs));
        match adopted {
            Ok((target, seq)) => {
                self.record_event(StorageEventKind::DeviceForked, None, None, Some(seq));
                proof {
                    assert forall|other: DeviceId| other != target implies #[trigger]
                        self.device_kept(&before, other) by {
                        if before.metadata.has_device(other) {
                            assert(before.metadata.device_heads@.contains_key(other.0));
                            assert(self.metadata.device_heads@.remove(target.0)[other.0]
                                == before.metadata.device_heads@[other.0]);
                        }
                    }
                }
                Ok(target)
            },
            Err(error) => Err(error),
        }
    }

    /// Makes a device that holds what another one held at a point.
    pub fn restore_device(&mut self, source: DeviceId, point: RestorePoint) -> (result: Result<
        DeviceId,
        StorageError,
    >)
        requires
            old(self).wf(),
        ensures
            final(self).wf(),
            final(self).keeps_store(old(self)),
            final(self).storage_nodes == old(self).storage_nodes,
            result is Ok <==> old(self).metadata.has_point(source, point) && old(
                self,
            ).metadata.next_device_id < u128::MAX && old(self).metadata.next_commit_seq < u64::MAX,
            result matches Ok(target) ==> {
                &&& !old(self).metadata.has_device(target)
                &&& final(self).device_holds(
                    old(self),
                    target,
                    old(self).metadata.roots_at_point(source, point),
                )
                &&& final(self).metadata.device_specs@[target.0] == old(
                    self,
                ).metadata.device_specs@[source.0]
                &&& final(self).other_devices_kept(old(self), target)
            },
            !old(self).metadata.has_point(source, point) ==> (result matches Err(error)
                && error is NotFound),
            result is Err ==> final(self).metadata == old(self).metadata,
            *final(self) == (LocalCoordinator {
                metadata: MetadataInner {
                    device_specs: final(self).metadata.device_specs,
                    device_heads: final(self).metadata.device_heads,
                    fork_records: final(self).metadata.fork_records,
                    next_device_id: final(self).metadata.next_device_id,
                    next_commit_seq: final(self).metadata.next_commit_seq,
                    ..old(self).metadata
                },
                observability: final(self).observability,
                ..*old(self)
            }),
            result matches Ok(target) ==> {
                let seq = old(self).metadata.next_commit_seq;
                let head = final(self).metadata.device_heads@[target.0];
                let record = final(self).metadata.fork_records@[seq as u128];
                &&& final(self).metadata.device_specs@ == old(self).metadata.device_specs@.insert(
                    target.0,
                    old(self).metadata.device_specs@[source.0],
                )
                &&& final(self).metadata.device_heads@.remove(target.0) == old(
                    self,
                ).metadata.device_heads@
                &&& head.device_id == target
                &&& head.generation == DeviceGeneration(1)
                &&& head.latest_commit.0 == seq
                &&& final(self).metadata.next_commit_seq == seq + 1
                &&& final(self).metadata.fork_records@.contains_key(seq as u128)
                &&& final(self).metadata.fork_records@.remove(seq as u128) == old(
                    self,
                ).metadata.fork_records@.remove(seq as u128)
                &&& record.source == source
                &&& record.target == target
                &&& record.commit_seq.0 == seq
                &&& record.shard_roots@ == final(self).metadata.roots_of(target)
                &&& final(self).metadata.next_device_id == if target.0 >= old(
                    self,
                ).metadata.next_device_id {
                    target.0 + 1
                } else {
                    old(self).metadata.next_device_id as int
                }
            },
            result matches Ok(target) ==> target.0 == old(self).metadata.next_device_id
                && final(self).metadata.roots_of(target) == old(self).metadata.roots_at_point(
                source,
                point,
            ),
            result is Err ==> *final(self) == *old(self),
    {
        let ghost before = *self;
        let ghost bs = before.block_size();
        let roots = match self.metadata.find_roots(source, point, Ghost(bs)) {
            Ok(roots) => roots,
            Err(error) => return Err(error),
        };
        let spec = match self.metadata.device_specs.get(source.raw()) {
            Some(spec) => *spec,
            None => return Err(StorageError::not_found("device", source.raw())),
        };
        match self.metadata.adopt_device(source, None, spec, roots, Ghost(bs)) {
            Ok((target, seq)) => {
                self.record_event(StorageEventKind::DeviceRestored, None, None, Some(seq));
                proof {
                    assert forall|other: DeviceId| other != target implies #[trigger]
                        self.device_kept(&before, other) by {
                        if before.metadata.has_device(other) {
                            assert(before.metadata.device_heads@.contains_key(other.0));
                            assert(self.metadata.device_heads@.remove(target.0)[other.0]
                                == before.metadata.device_heads@[other.0]);
                        }
                    }
                }
                Ok(target)
            },
            Err(error) => Err(error),
        }
    }

    /// Takes a device away; its past can still be restored.
    #[verifier::rlimit(40)]
    pub fn delete_device(&mut self, device_id: DeviceId) -> (result: Result<
        DeleteResult,
        StorageError,
    >)
        requires
            old(self).wf(),
        ensures
            final(self).wf(),
            final(self).keeps_store(old(self)),
            final(self).storage_nodes == old(self).storage_nodes,
            result is Ok <==> old(self).metadata.has_device(device_id) && old(
                self,
            ).metadata.next_commit_seq < u64::MAX,
            result matches Ok(deleted) ==> {
                &&& deleted == (DeleteResult {
                    device_id,
                    commit_seq: CommitSeq(old(self).metadata.next_commit_seq),
                })
                &&& final(self).metadata.device_heads@ == old(self).metadata.device_heads@.remove(
                    device_id.0,
                )
                &&& final(self).metadata.device_specs == old(self).metadata.device_specs
                &&& final(self).metadata.any_device(device_id)
                &&& final(self).metadata.any_roots_of(device_id) == old(self).metadata.roots_of(
                    device_id,
                )
                &&& final(self).metadata.next_commit_seq == old(self).metadata.next_commit_seq + 1
            },
            !old(self).metadata.has_device(device_id) ==> result == Err::<
                DeleteResult,
                StorageError,
            >(StorageError::NotFound { kind: "device", id: device_id.0 }),
            result is Err ==> *final(self) == *old(self),
            result is Ok ==> {
                let seq = old(self).metadata.next_commit_seq;
                let record = final(self).metadata.delete_records@[seq as u128];
                let gone = final(self).metadata.deleted_device_heads@[device_id.0];
                let head = old(self).metadata.device_heads@[device_id.0];
                &&& *final(self) == (LocalCoordinator {
                    metadata: MetadataInner {
                        device_heads: final(self).metadata.device_heads,
                        deleted_device_heads: final(self).metadata.deleted_device_heads,
                        delete_records: final(self).metadata.delete_records,
                        next_commit_seq: final(self).metadata.next_commit_seq,
                        ..old(self).metadata
                    },
                    ..*old(self)
                })
                &&& final(self).metadata.deleted_device_heads@.contains_key(device_id.0)
                &&& final(self).metadata.deleted_device_heads@.remove(device_id.0) == old(
                    self,
                ).metadata.deleted_device_heads@.remove(device_id.0)
                &&& gone.device_id == head.device_id
                &&& gone.generation == head.generation
                &&& gone.shard_roots@ == head.shard_roots@
                &&& gone.latest_commit.0 == seq
                &&& final(self).metadata.delete_records@.contains_key(seq as u128)
                &&& final(self).metadata.delete_records@.remove(seq as u128) == old(
                    self,
                ).metadata.delete_records@.remove(seq as u128)
                &&& record.device_id == device_id
                &&& record.commit_seq.0 == seq
                &&& record.time.0 == seq
                &&& record.shard_roots@ == head.shard_roots@
            },
    {
        let ghost before = *self;
        let ghost bs = before.block_size();
        if !self.metadata.device_heads.contains_key(device_id.raw()) {
            return Err(StorageError::not_found("device", device_id.raw()));
        }
        if self.metadata.next_commit_seq == u64::MAX {
            return Err(StorageError::conflict("commit sequence overflow"));
        }
        let seq = CommitSeq(self.metadata.next_commit_seq);
        if let Some(head) = self.metadata.device_heads.remove(device_id.raw()) {
            self.metadata.next_commit_seq = self.metadata.next_commit_seq + 1;
            let recorded = copy_vec(&head.shard_roots);
            self.metadata.delete_records.insert(
                seq.0 as u128,
                DeleteRecord {
                    commit_seq: seq,
                    time: LogicalTime(seq.0),
                    device_id,
                    shard_roots: recorded,
                },
            );
            let DeviceHead { device_id: held, generation, shard_roots, latest_commit: _ } = head;
            self.metadata.deleted_device_heads.insert(
                device_id.raw(),
                DeviceHead { device_id: held, generation, shard_roots, latest_commit: seq },
            );
        }
        proof {
            let nodes = self.nodes();
            let id = device_id.0;
            let heads = before.metadata.device_heads@;
            assert(head_wf(nodes, before.metadata.device_specs@, heads[id], id, bs));
            assert(self.metadata.deleted_device_heads@.remove(id)
                =~= before.metadata.deleted_device_heads@.remove(id));
            assert(self.metadata.delete_records@.remove(seq.0 as u128)
                =~= before.metadata.delete_records@.remove(seq.0 as u128));
            assert forall|other: u128| #[trigger] self.metadata.deleted_device_heads@.contains_key(
                other,
            ) implies other < self.metadata.next_device_id && head_wf(
                nodes,
                self.metadata.device_specs@,
                self.metadata.deleted_device_heads@[other],
                other,
                bs,
            ) && !self.metadata.device_heads@.contains_key(other) by {
                if other != id {
                    assert(before.metadata.deleted_device_heads@.contains_key(other));
                }
            }
            assert forall|other: u128| #[trigger] self.metadata.device_heads@.contains_key(
                other,
            ) implies other < self.metadata.next_device_id && head_wf(
                nodes,
                self.metadata.device_specs@,
                self.metadata.device_heads@[other],
                other,
                bs,
            ) by {
                assert(heads.contains_key(other));
            }
            assert forall|i: int| 0 <= i < self.metadata.shard_commits@.len() implies
                shard_commit_wf(
                nodes,
                self.metadata.device_heads@,
                #[trigger] self.metadata.shard_commits@[i],
            ) && shard_commit_wf(
                nodes,
                self.metadata.deleted_device_heads@,
                self.metadata.shard_commits@[i],
            ) by {
                let commit = before.metadata.shard_commits@[i];
                assert(shard_commit_wf(nodes, heads, commit));
                assert(shard_commit_wf(nodes, before.metadata.deleted_device_heads@, commit));
            }
            assert(self.metadata.devices_wf(bs));
            assert(self.metadata.files_wf(bs));
        }
        Ok(DeleteResult { device_id, commit_seq: seq })
    }

    /// Records what a device holds now.
    #[verifier::rlimit(40)]
    pub fn checkpoint(&mut self, device_id: DeviceId) -> (result: Result<
        CheckpointId,
        StorageError,
    >)
        requires
            old(self).wf(),
        ensures
            final(self).wf(),
            final(self).keeps_store(old(self)),
            final(self).storage_nodes == old(self).storage_nodes,
            final(self).metadata.device_heads == old(self).metadata.device_heads,
            final(self).metadata.device_specs == old(self).metadata.device_specs,
            result is Ok <==> old(self).metadata.has_device(device_id) && old(
                self,
            ).metadata.next_commit_seq < u64::MAX && old(self).metadata.next_checkpoint_id
                < u128::MAX,
            result matches Ok(id) ==> id.0 == old(self).metadata.next_checkpoint_id && final(self).metadata.has_point(device_id, RestorePoint::Checkpoint(id)) && final(self).metadata.roots_at_point(device_id, RestorePoint::Checkpoint(id)) == old(
                self,
            ).metadata.roots_of(device_id),
            !old(self).metadata.has_device(device_id) ==> result == Err::<
                CheckpointId,
                StorageError,
            >(StorageError::NotFound { kind: "device", id: device_id.0 }),
            result is Err ==> *final(self) == *old(self),
            result matches Ok(id) ==> {
                let made = final(self).metadata.checkpoints@[id.0];
                &&& final(self).metadata.checkpoints@.contains_key(id.0)
                &&& final(self).metadata.checkpoints@.remove(id.0) == old(
                    self,
                ).metadata.checkpoints@.remove(id.0)
                &&& made.checkpoint_id == id
                &&& made.commit_seq.0 == old(self).metadata.next_commit_seq
                &&& made.time.0 == old(self).metadata.next_commit_seq
                &&& made.owner == MappingOwner::BlockDevice(device_id)
                &&& final(self).metadata.next_commit_seq == old(self).metadata.next_commit_seq + 1
                &&& final(self).metadata.next_checkpoint_id == id.0 + 1
                &&& *final(self) == (LocalCoordinator {
                    metadata: MetadataInner {
                        checkpoints: final(self).metadata.checkpoints,
                        next_commit_seq: final(self).metadata.next_commit_seq,
                        next_checkpoint_id: final(self).metadata.next_checkpoint_id,
                        ..old(self).metadata
                    },
                    ..*old(self)
                })
            },
    {
        let ghost before = *self;
        let ghost bs = before.block_size();
        let roots = match self.metadata.device_heads.get(device_id.raw()) {
            Some(head) => copy_vec(&head.shard_roots),
            None => return Err(StorageError::not_found("device", device_id.raw())),
        };
        assert(self.metadata.device_heads@.contains_key(device_id.0));
        if self.metadata.next_commit_seq == u64::MAX {
            return Err(StorageError::conflict("commit sequence overflow"));
        }
        if self.metadata.next_checkpoint_id == u128::MAX {
            return Err(StorageError::conflict("checkpoint id overflow"));
        }
        let seq = CommitSeq(self.metadata.next_commit_seq);
        let id = CheckpointId(self.metadata.next_checkpoint_id);
        self.metadata.next_commit_seq = self.metadata.next_commit_seq + 1;
        self.metadata.next_checkpoint_id = self.metadata.next_checkpoint_id + 1;
        self.metadata.checkpoints.insert(
            id.raw(),
            Checkpoint {
                checkpoint_id: id,
                commit_seq: seq,
                time: LogicalTime(seq.0),
                owner: MappingOwner::BlockDevice(device_id),
                roots: CheckpointRoots::BlockShard(roots),
            },
        );
        proof {
            let nodes = self.nodes();
            assert(self.metadata.checkpoints@.remove(id.0)
                =~= before.metadata.checkpoints@.remove(id.0));
            assert(head_wf(
                nodes,
                before.metadata.device_specs@,
                before.metadata.device_heads@[device_id.0],
                device_id.0,
                bs,
            ));
            assert forall|c: u128| #[trigger] self.metadata.checkpoints@.contains_key(
                c,
            ) implies checkpoint_wf(
                nodes,
                self.metadata.device_specs@,
                self.metadata.checkpoints@[c],
                bs,
            ) by {
                if c != id.0 {
                    assert(before.metadata.checkpoints@.contains_key(c));
                }
            }
            assert(self.metadata.devices_wf(bs));
            assert(self.metadata.files_wf(bs));
        }
        Ok(id)
    }
}

} // verus!
