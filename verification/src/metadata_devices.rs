//! Devices: creating them and publishing what they hold.
use vstd::prelude::*;

use crate::block_api::{BlockRange, DeviceSpec};
use crate::config::LocalStoreConfig;
use crate::device_trees::{
    device_block_at, has_shard_at, lemma_edited_shards_wf, lemma_shard_unique, shard_at,
    shard_covers, shards_wf,
};
use crate::error::StorageError;
use crate::id::{
    BlockCount, BlockIndex, CommitGroupId, CommitSeq, DeviceGeneration, DeviceId, LogicalTime,
    MetadataNodeId,
};
use crate::metadata::{
    MetadataInner, head_wf, history_wf, lemma_devices_kept, root_of_shard, shard_commit_wf,
};
use crate::metadata_records::{
    CommitGroup, DeviceHead, MappingOwner, MetadataNode, RootUpdate, ShardCommit, ShardRootUpdate,
};
use crate::tree::{block_at, copy_vec, keeps_nodes, tree_wf};
use crate::tree_build::{build_empty_tree, holds_no_entries, is_empty_tree};

verus! {

/// Whether a device can be created with a specification.
pub open spec fn spec_valid(spec: DeviceSpec, config: LocalStoreConfig) -> bool {
    &&& spec.logical_blocks > 0
    &&& spec.block_size == config.block_size
    &&& spec.logical_blocks * spec.block_size <= u64::MAX
    &&& config.shard_count <= u32::MAX || spec.logical_blocks <= u32::MAX
}

/// The roots after a commit.
pub open spec fn with_updates(
    roots: Seq<MetadataNodeId>,
    updates: Seq<ShardRootUpdate>,
) -> Seq<MetadataNodeId>
    decreases updates.len(),
{
    if updates.len() == 0 {
        roots
    } else {
        with_updates(roots, updates.drop_last()).update(
            updates.last().shard_id.0 as int,
            updates.last().new_root,
        )
    }
}

/// Whether every update starts from the root that its shard has.
pub open spec fn updates_current(
    roots: Seq<MetadataNodeId>,
    updates: Seq<ShardRootUpdate>,
) -> bool {
    forall|i: int|
        0 <= i < updates.len() ==> (#[trigger] updates[i]).shard_id.0 < roots.len()
            && roots[updates[i].shard_id.0 as int] == updates[i].old_root
}

fn are_updates_current(
    roots: &Vec<MetadataNodeId>,
    updates: &Vec<ShardRootUpdate>,
) -> (current: bool)
    ensures
        current == updates_current(roots@, updates@),
{
    let mut i: usize = 0;
    while i < updates.len()
        invariant
            i <= updates@.len(),
            updates_current(roots@, updates@.take(i as int)),
        decreases updates@.len() - i,
    {
        let update = updates[i];
        assert(updates@[i as int] == update);
        let shard: usize = update.shard_id.0 as usize;
        if shard >= roots.len() || roots[shard].0 != update.old_root.0 {
            return false;
        }
        assert(updates@.take(i + 1) =~= updates@.take(i as int).push(update));
        i = i + 1;
    }
    assert(updates@.take(i as int) =~= updates@);
    true
}

/// Whether every update leads to a tree over the same blocks.
pub open spec fn updates_fit(
    nodes: Map<u128, MetadataNode>,
    updates: Seq<ShardRootUpdate>,
) -> bool {
    forall|i: int|
        0 <= i < updates.len() ==> nodes.contains_key((#[trigger] updates[i]).old_root.0)
            && nodes.contains_key(updates[i].new_root.0)
            && nodes[updates[i].new_root.0].covered_range
            == nodes[updates[i].old_root.0].covered_range
}

/// The history that a commit leaves behind.
pub open spec fn shard_commits_of(
    device_id: DeviceId,
    commit_seq: CommitSeq,
    commit_group: CommitGroupId,
    updates: Seq<ShardRootUpdate>,
) -> Seq<ShardCommit> {
    updates.map_values(
        |update: ShardRootUpdate|
            ShardCommit {
                commit_seq,
                commit_group,
                time: LogicalTime(commit_seq.0),
                device_id,
                shard_id: update.shard_id,
                old_root: update.old_root,
                new_root: update.new_root,
            },
    )
}

/// The updates of a commit group that gives a device new roots.
pub open spec fn shard_updates_of(updates: Seq<ShardRootUpdate>) -> Seq<RootUpdate> {
    updates.map_values(|update: ShardRootUpdate| RootUpdate::BlockShard(update))
}

impl MetadataInner {
    /// Whether a commit of a device is on record: in the history of its shards and
    /// as a commit group.
    pub open spec fn block_commit_recorded(
        &self,
        before: &MetadataInner,
        device_id: DeviceId,
        seq: CommitSeq,
    ) -> bool {
        exists|updates: Seq<ShardRootUpdate>| #[trigger]
            self.updates_recorded(before, device_id, seq, updates)
    }

    pub open spec fn updates_recorded(
        &self,
        before: &MetadataInner,
        device_id: DeviceId,
        seq: CommitSeq,
        updates: Seq<ShardRootUpdate>,
    ) -> bool {
        let group = CommitGroupId(before.next_commit_group_id);
        let made = self.commit_groups@[group.0];
        &&& self.roots_of(device_id) == with_updates(before.roots_of(device_id), updates)
        &&& self.shard_commits@ == before.shard_commits@ + shard_commits_of(
            device_id,
            seq,
            group,
            updates,
        )
        &&& self.commit_groups@.contains_key(group.0)
        &&& self.commit_groups@.remove(group.0) == before.commit_groups@.remove(group.0)
        &&& made.commit_group == group
        &&& made.commit_seq == seq
        &&& made.owner == MappingOwner::BlockDevice(device_id)
        &&& made.updates@ == shard_updates_of(updates)
    }

    /// Whether a publish of new roots for a device goes through.
    pub open spec fn takes_block_commit(
        &self,
        device_id: DeviceId,
        fence: DeviceGeneration,
        updates: Seq<ShardRootUpdate>,
    ) -> bool {
        &&& self.has_device(device_id)
        &&& self.device_heads@[device_id.0].generation == fence
        &&& updates_current(self.roots_of(device_id), updates)
        &&& self.next_commit_seq < u64::MAX
        &&& self.next_commit_group_id < u128::MAX
    }

    /// Gives a device new roots, if its generation is the expected one and no
    /// shard has changed since.
    #[verifier::rlimit(60)]
    pub fn publish_block_commit(
        &mut self,
        device_id: DeviceId,
        fence: DeviceGeneration,
        updates: &Vec<ShardRootUpdate>,
        block_size: Ghost<u64>,
    ) -> (result: Result<CommitSeq, StorageError>)
        requires
            old(self).devices_wf(block_size@),
            updates_fit(old(self).nodes(), updates@),
        ensures
            final(self).devices_wf(block_size@),
            result is Ok <==> old(self).takes_block_commit(device_id, fence, updates@),
            result matches Ok(seq) ==> {
                &&& seq.0 == old(self).next_commit_seq
                &&& final(self).next_commit_seq == seq.0 + 1
                &&& final(self).next_commit_group_id == old(self).next_commit_group_id + 1
                &&& final(self).trees == old(self).trees
                &&& final(self).device_specs == old(self).device_specs
                &&& final(self).next_device_id == old(self).next_device_id
                &&& final(self).deleted_device_heads == old(self).deleted_device_heads
                &&& final(self).fork_records == old(self).fork_records
                &&& final(self).delete_records == old(self).delete_records
                &&& final(self).same_outside_devices(old(self))
                &&& final(self).roots_of(device_id) == with_updates(
                    old(self).roots_of(device_id),
                    updates@,
                )
                &&& final(self).device_heads@[device_id.0].generation == fence
                &&& final(self).device_heads@[device_id.0].latest_commit == seq
                &&& final(self).device_heads@.dom() == old(self).device_heads@.dom()
                &&& final(self).device_heads@.remove(device_id.0) == old(
                    self,
                ).device_heads@.remove(device_id.0)
                &&& final(self).shard_commits@ == old(self).shard_commits@ + shard_commits_of(
                    device_id,
                    seq,
                    CommitGroupId(old(self).next_commit_group_id),
                    updates@,
                )
            },
            result matches Err(error) ==> *final(self) == *old(self),
            result matches Err(error) ==> error == if !old(self).has_device(device_id) {
                (StorageError::NotFound { kind: "device", id: device_id.0 })
            } else if old(self).device_heads@[device_id.0].generation != fence {
                (StorageError::Conflict { message: "stale device generation" })
            } else if !updates_current(old(self).roots_of(device_id), updates@) {
                (StorageError::Conflict { message: "stale shard root" })
            } else if old(self).next_commit_seq == u64::MAX {
                (StorageError::Conflict { message: "commit sequence overflow" })
            } else {
                (StorageError::Conflict { message: "commit group id overflow" })
            },
            result matches Ok(seq) ==> final(self).updates_recorded(
                old(self),
                device_id,
                seq,
                updates@,
            ),
    {
        let ghost nodes = self.nodes();
        let ghost before = *self;
        let head = match self.device_heads.get(device_id.raw()) {
            Some(head) => head,
            None => return Err(StorageError::not_found("device", device_id.raw())),
        };
        let ghost roots = head.shard_roots@;
        if head.generation.0 != fence.0 {
            return Err(StorageError::conflict("stale device generation"));
        }
        assert(head_wf(nodes, self.device_specs@, *head, device_id.0, block_size@));
        if !are_updates_current(&head.shard_roots, updates) {
            return Err(StorageError::conflict("stale shard root"));
        }
        if self.next_commit_seq == u64::MAX {
            return Err(StorageError::conflict("commit sequence overflow"));
        }
        if self.next_commit_group_id == u128::MAX {
            return Err(StorageError::conflict("commit group id overflow"));
        }
        let seq = CommitSeq(self.next_commit_seq);
        let group_id = CommitGroupId(self.next_commit_group_id);
        let mut new_roots = copy_vec(&head.shard_roots);
        let mut root_updates: Vec<RootUpdate> = Vec::new();
        let ghost commits_before = self.shard_commits@;
        let ghost commits_added = shard_commits_of(device_id, seq, group_id, updates@);
        let generation = head.generation;
        let mut k: usize = 0;
        while k < updates.len()
            invariant
                k <= updates@.len(),
                updates_current(roots, updates@),
                updates_fit(nodes, updates@),
                new_roots@ == with_updates(roots, updates@.take(k as int)),
                new_roots@.len() == roots.len(),
                forall|t: int|
                    0 <= t < roots.len() ==> nodes.contains_key((#[trigger] roots[t]).0),
                forall|t: int|
                    0 <= t < roots.len() ==> nodes.contains_key((#[trigger] new_roots@[t]).0)
                        && nodes[new_roots@[t].0].covered_range == nodes[roots[t].0].covered_range,
                root_updates@.len() == k,
                forall|i: int|
                    0 <= i < k ==> #[trigger] root_updates@[i] == RootUpdate::BlockShard(
                        updates@[i],
                    ),
                self.shard_commits@ == commits_before + commits_added.take(k as int),
                commits_added == shard_commits_of(device_id, seq, group_id, updates@),
                *self == (MetadataInner { shard_commits: self.shard_commits, ..before }),
            decreases updates@.len() - k,
        {
            let update = updates[k];
            let ghost roots_then = new_roots@;
            let ghost commits_then = self.shard_commits@;
            assert(updates@[k as int] == update);
            let shard: usize = update.shard_id.0 as usize;
            new_roots.set(shard, update.new_root);
            root_updates.push(RootUpdate::BlockShard(update));
            self.shard_commits.push(
                ShardCommit {
                    commit_seq: seq,
                    commit_group: group_id,
                    time: LogicalTime(seq.0),
                    device_id,
                    shard_id: update.shard_id,
                    old_root: update.old_root,
                    new_root: update.new_root,
                },
            );
            proof {
                let longer = updates@.take(k + 1);
                assert(longer.drop_last() =~= updates@.take(k as int));
                assert(longer.last() == update);
                assert(new_roots@ == with_updates(roots, longer));
                assert(self.shard_commits@ =~= commits_before + commits_added.take(k + 1)) by {
                    assert(commits_added.take(k + 1) =~= commits_added.take(k as int).push(
                        commits_added[k as int],
                    ));
                }
            }
            k = k + 1;
        }
        proof {
            assert(updates@.take(updates@.len() as int) =~= updates@);
            assert(commits_added.take(updates@.len() as int) =~= commits_added);
        }
        let new_head = DeviceHead {
            device_id,
            generation,
            shard_roots: new_roots,
            latest_commit: seq,
        };
        self.device_heads.insert(device_id.raw(), new_head);
        self.commit_groups.insert(
            group_id.raw(),
            CommitGroup {
                commit_group: group_id,
                commit_seq: seq,
                owner: MappingOwner::BlockDevice(device_id),
                updates: root_updates,
            },
        );
        self.next_commit_seq = self.next_commit_seq + 1;
        self.next_commit_group_id = self.next_commit_group_id + 1;
        proof {
            assert(self.commit_groups@.remove(group_id.0) =~= before.commit_groups@.remove(
                group_id.0,
            ));
            assert(self.commit_groups@[group_id.0].updates@ =~= shard_updates_of(updates@));
            let specs = before.device_specs@;
            let blocks = specs[device_id.0].logical_blocks as int;
            lemma_edited_shards_wf(nodes, nodes, roots, new_roots@, blocks);
            assert(self.device_heads@ == before.device_heads@.insert(device_id.0, new_head));
            assert(self.device_heads@.dom() =~= before.device_heads@.dom());
            assert(self.device_heads@.remove(device_id.0) =~= before.device_heads@.remove(
                device_id.0,
            ));
            assert forall|id: u128| #[trigger] self.device_heads@.contains_key(id) implies id
                < self.next_device_id && head_wf(
                nodes,
                specs,
                self.device_heads@[id],
                id,
                block_size@,
            ) by {
                assert(before.device_heads@.contains_key(id));
            }
            lemma_history_extends(
                nodes,
                before.device_heads@,
                self.device_heads@,
                commits_before,
                commits_added,
                device_id,
                roots,
                new_roots@,
            );
            assert forall|i: int| 0 <= i < self.shard_commits@.len() implies shard_commit_wf(
                nodes,
                self.deleted_device_heads@,
                #[trigger] self.shard_commits@[i],
            ) by {
                if i < commits_before.len() {
                    assert(self.shard_commits@[i] == commits_before[i]);
                } else {
                    assert(self.shard_commits@[i] == commits_added[i - commits_before.len()]);
                    assert(!self.deleted_device_heads@.contains_key(device_id.0));
                }
            }
            assert forall|i: int| 0 <= i < self.shard_commits@.len() implies
                self.device_specs@.contains_key(
                (#[trigger] self.shard_commits@[i]).device_id.0,
            ) by {
                if i < commits_before.len() {
                    assert(self.shard_commits@[i] == commits_before[i]);
                } else {
                    assert(self.shard_commits@[i] == commits_added[i - commits_before.len()]);
                }
            }
        }
        Ok(seq)
    }
}

proof fn lemma_history_extends(
    nodes: Map<u128, MetadataNode>,
    before: Map<u128, DeviceHead>,
    after: Map<u128, DeviceHead>,
    commits: Seq<ShardCommit>,
    added: Seq<ShardCommit>,
    device_id: DeviceId,
    roots: Seq<MetadataNodeId>,
    new_roots: Seq<MetadataNodeId>,
)
    requires
        history_wf(nodes, before, commits),
        before.contains_key(device_id.0),
        before[device_id.0].shard_roots@ == roots,
        after.contains_key(device_id.0),
        after[device_id.0].shard_roots@ == new_roots,
        after.dom() == before.dom(),
        after.remove(device_id.0) == before.remove(device_id.0),
        new_roots.len() == roots.len(),
        forall|t: int|
            0 <= t < roots.len() ==> nodes.contains_key((#[trigger] new_roots[t]).0)
                && nodes[new_roots[t].0].covered_range == nodes[roots[t].0].covered_range,
        forall|i: int|
            0 <= i < added.len() ==> (#[trigger] added[i]).device_id == device_id
                && added[i].shard_id.0 < roots.len() && roots[added[i].shard_id.0 as int]
                == added[i].old_root && nodes.contains_key(added[i].old_root.0)
                && nodes.contains_key(added[i].new_root.0)
                && nodes[added[i].new_root.0].covered_range
                == nodes[added[i].old_root.0].covered_range,
    ensures
        history_wf(nodes, after, commits + added),
{
    let all = commits + added;
    assert forall|i: int| 0 <= i < all.len() implies shard_commit_wf(
        nodes,
        after,
        #[trigger] all[i],
    ) by {
        let commit = all[i];
        if i < commits.len() {
            assert(commit == commits[i]);
            assert(shard_commit_wf(nodes, before, commits[i]));
            if commit.device_id == device_id {
                let shard = commit.shard_id.0 as int;
                assert(root_of_shard(nodes, roots, shard, commit.old_root));
                assert(root_of_shard(nodes, roots, shard, commit.new_root));
                assert(nodes.contains_key(new_roots[shard].0));
                assert(root_of_shard(nodes, new_roots, shard, commit.old_root));
                assert(root_of_shard(nodes, new_roots, shard, commit.new_root));
            } else if after.contains_key(commit.device_id.0) {
                let other = commit.device_id.0;
                assert(other != device_id.0);
                assert(before.dom().contains(other));
                assert(after.remove(device_id.0).contains_key(other));
                assert(after.remove(device_id.0)[other] == after[other]);
                assert(before.remove(device_id.0)[other] == before[other]);
                assert(after[other] == before[other]);
            }
        } else {
            assert(commit == added[i - commits.len()]);
            let shard = commit.shard_id.0 as int;
            assert(nodes.contains_key(new_roots[shard].0));
            assert(root_of_shard(nodes, new_roots, shard, commit.old_root));
            assert(root_of_shard(nodes, new_roots, shard, commit.new_root));
        }
    }
}

/// How many shards a device gets.
pub open spec fn shard_count_of(spec: DeviceSpec, config: LocalStoreConfig) -> int {
    if config.shard_count as int <= spec.logical_blocks {
        config.shard_count as int
    } else {
        spec.logical_blocks as int
    }
}

/// Whether a device of these roots holds nothing.
pub open spec fn holds_nothing(
    nodes: Map<u128, MetadataNode>,
    roots: Seq<MetadataNodeId>,
    blocks: int,
) -> bool {
    forall|block: int|
        0 <= block < blocks ==> #[trigger] device_block_at(nodes, roots, block) is None
}

spec fn empty_shards(
    nodes: Map<u128, MetadataNode>,
    roots: Seq<MetadataNodeId>,
    end: int,
    block_size: u64,
) -> bool {
    &&& forall|s: int|
        0 <= s < roots.len() ==> is_empty_tree(
            nodes,
            (#[trigger] roots[s]).0,
            nodes[roots[s].0].covered_range,
            block_size,
        )
    &&& shards_wf(nodes, roots, end)
}

/// Builds the empty trees of a new device, of as equal a size as can be.
#[verifier::rlimit(60)]
fn build_device_roots(
    metadata: &mut MetadataInner,
    config: LocalStoreConfig,
    logical_blocks: u64,
) -> (result: Result<Vec<MetadataNodeId>, StorageError>)
    requires
        config.valid(),
        old(metadata).trees.wf(config.block_size as u64),
        logical_blocks > 0,
        logical_blocks * config.block_size <= u64::MAX,
    ensures
        final(metadata).trees.wf(config.block_size as u64),
        keeps_nodes(old(metadata).nodes(), final(metadata).nodes()),
        old(metadata).trees.next_metadata_node_id <= final(metadata).trees.next_metadata_node_id,
        final(metadata).trees.spare() == old(metadata).trees.spare(),
        *final(metadata) == (MetadataInner { trees: final(metadata).trees, ..*old(metadata) }),
        forall|id: u128| #[trigger]
            final(metadata).nodes().contains_key(id) && !old(metadata).nodes().contains_key(id)
                ==> holds_no_entries(final(metadata).nodes()[id]),
        result matches Ok(roots) ==> roots@.len() == shard_count_of(
            DeviceSpec { logical_blocks, block_size: config.block_size },
            config,
        ) && shards_wf(final(metadata).nodes(), roots@, logical_blocks as int) && holds_nothing(
            final(metadata).nodes(),
            roots@,
            logical_blocks as int,
        ),
        result matches Err(error) ==> error is Conflict
            && final(metadata).trees.next_metadata_node_id == u128::MAX,
{
    let bs: u64 = config.block_size as u64;
    let ghost before = metadata.nodes();
    let ghost start_state = *metadata;
    let wanted: u64 = config.shard_count as u64;
    let count: u64 = if wanted <= logical_blocks {
        wanted
    } else {
        logical_blocks
    };
    let mut roots: Vec<MetadataNodeId> = Vec::new();
    let mut next: u64 = 0;
    let mut shard: u64 = 0;
    while shard < count
        invariant
            shard <= count,
            count > 0,
            bs == config.block_size,
            bs > 0,
            config.valid(),
            count - shard <= logical_blocks - next,
            next <= logical_blocks,
            shard == count ==> next == logical_blocks,
            logical_blocks * bs <= u64::MAX,
            roots@.len() == shard,
            metadata.trees.wf(bs),
            before == start_state.nodes(),
            start_state == *old(metadata),
            keeps_nodes(before, metadata.nodes()),
            start_state.trees.next_metadata_node_id <= metadata.trees.next_metadata_node_id,
            metadata.trees.spare() == start_state.trees.spare(),
            *metadata == (MetadataInner { trees: metadata.trees, ..start_state }),
            forall|id: u128| #[trigger]
                metadata.nodes().contains_key(id) && !before.contains_key(id) ==> holds_no_entries(
                    metadata.nodes()[id],
                ),
            empty_shards(metadata.nodes(), roots@, next as int, bs),
        decreases count - shard,
    {
        let left: u64 = count - shard;
        let remaining: u64 = logical_blocks - next;
        let len: u64 = remaining / left;
        proof {
            assert(len >= 1 && len * left <= remaining) by (nonlinear_arith)
                requires
                    left >= 1,
                    remaining >= left,
                    len == remaining / left,
            ;
            assert(remaining - len >= left - 1) by (nonlinear_arith)
                requires
                    len * left <= remaining,
                    len >= 1,
                    left >= 1,
            ;
            assert(left == 1 ==> len == remaining) by (nonlinear_arith)
                requires
                    len == remaining / left,
            ;
            assert(len <= remaining) by (nonlinear_arith)
                requires
                    len * left <= remaining,
                    left >= 1,
            ;
            assert((next + len) * bs <= u64::MAX) by (nonlinear_arith)
                requires
                    next + len <= logical_blocks,
                    logical_blocks * bs <= u64::MAX,
            ;
        }
        let range = BlockRange { start: BlockIndex(next), blocks: BlockCount(len) };
        let ghost nodes_then = metadata.nodes();
        let ghost roots_then = roots@;
        let root = match build_empty_tree(
            &mut metadata.trees,
            range,
            config.metadata_leaf_blocks,
            config.metadata_fanout as u64,
            bs,
        ) {
            Ok(root) => root,
            Err(error) => return Err(error),
        };
        roots.push(root);
        proof {
            lemma_empty_shards_extend(
                nodes_then,
                metadata.nodes(),
                roots_then,
                root,
                range,
                bs,
            );
            assert(roots@ == roots_then.push(root));
            assert forall|id: u128| #[trigger]
                metadata.nodes().contains_key(id) && !before.contains_key(
                    id,
                ) implies holds_no_entries(metadata.nodes()[id]) by {
                if nodes_then.contains_key(id) {
                    assert(metadata.nodes()[id] == nodes_then[id]);
                }
            }
        }
        next = next + len;
        shard = shard + 1;
    }
    proof {
        let nodes = metadata.nodes();
        assert forall|block: int| 0 <= block < logical_blocks implies #[trigger] device_block_at(
            nodes,
            roots@,
            block,
        ) is None by {
            assert(has_shard_at(nodes, roots@, block));
            let s = shard_at(nodes, roots@, block);
            assert(shard_covers(nodes, roots@, s, block));
            lemma_shard_unique(nodes, roots@, logical_blocks as int, s, block);
            assert(is_empty_tree(nodes, roots@[s].0, nodes[roots@[s].0].covered_range, bs));
            assert(block_at(nodes, roots@[s].0, block) is None);
        }
    }
    Ok(roots)
}

proof fn lemma_empty_shards_extend(
    before: Map<u128, MetadataNode>,
    after: Map<u128, MetadataNode>,
    roots: Seq<MetadataNodeId>,
    root: MetadataNodeId,
    range: BlockRange,
    block_size: u64,
)
    requires
        tree_wf(before, block_size),
        keeps_nodes(before, after),
        empty_shards(before, roots, range.start.0 as int, block_size),
        is_empty_tree(after, root.0, range, block_size),
        range.blocks.0 > 0,
    ensures
        empty_shards(after, roots.push(root), range.end(), block_size),
{
    let longer = roots.push(root);
    assert forall|s: int| 0 <= s < longer.len() implies is_empty_tree(
        after,
        (#[trigger] longer[s]).0,
        after[longer[s].0].covered_range,
        block_size,
    ) by {
        if s < roots.len() {
            assert(longer[s] == roots[s]);
            assert(is_empty_tree(
                before,
                roots[s].0,
                before[roots[s].0].covered_range,
                block_size,
            ));
            crate::tree::law_trees_are_immutable(before, after, block_size, roots[s].0);
        }
    }
    assert forall|s: int| 0 <= s < roots.len() implies longer[s] == roots[s] && after.contains_key(
        (#[trigger] roots[s]).0,
    ) && after[roots[s].0] == before[roots[s].0] by {
        assert(before.contains_key(roots[s].0));
    }
    assert forall|s: int| 0 <= s < longer.len() implies after.contains_key((#[trigger] longer[s]).0)
        && after[longer[s].0].covered_range.end() <= range.end()
        && after[longer[s].0].covered_range.blocks.0 > 0 by {
        if s < roots.len() {
            assert(before.contains_key(roots[s].0));
        }
    }
    assert forall|s: int, t: int| 0 <= s < t < longer.len() implies after[(
    #[trigger] longer[s]).0].covered_range.end() <= after[(
    #[trigger] longer[t]).0].covered_range.start.0 by {
        assert(longer[s] == roots[s]);
        assert(before.contains_key(roots[s].0));
        if t < roots.len() {
            assert(longer[t] == roots[t]);
            assert(before[roots[s].0].covered_range.end()
                <= before[roots[t].0].covered_range.start.0);
        }
    }
    assert forall|block: int| 0 <= block < range.end() implies #[trigger] has_shard_at(
        after,
        longer,
        block,
    ) by {
        if block < range.start.0 {
            assert(has_shard_at(before, roots, block));
            let s = shard_at(before, roots, block);
            assert(shard_covers(before, roots, s, block));
            assert(longer[s] == roots[s]);
            assert(after[roots[s].0] == before[roots[s].0]);
            assert(shard_covers(after, longer, s, block));
        } else {
            assert(longer[roots.len() as int] == root);
            assert(shard_covers(after, longer, roots.len() as int, block));
        }
    }
}

impl MetadataInner {
    /// Creates a device that holds nothing.
    #[verifier::rlimit(60)]
    pub fn create_device(&mut self, config: LocalStoreConfig, spec: DeviceSpec) -> (result: Result<
        DeviceId,
        StorageError,
    >)
        requires
            config.valid(),
            old(self).devices_wf(config.block_size as u64),
        ensures
            final(self).devices_wf(config.block_size as u64),
            keeps_nodes(old(self).nodes(), final(self).nodes()),
            final(self).same_outside_devices(old(self)),
            final(self).next_commit_seq == old(self).next_commit_seq,
            final(self).next_commit_group_id == old(self).next_commit_group_id,
            final(self).shard_commits == old(self).shard_commits,
            final(self).trees.spare() == old(self).trees.spare(),
            final(self).deleted_device_heads == old(self).deleted_device_heads,
            final(self).fork_records == old(self).fork_records,
            forall|id: u128| #[trigger]
                final(self).nodes().contains_key(id) && !old(self).nodes().contains_key(id)
                    ==> holds_no_entries(final(self).nodes()[id]),
            result matches Ok(device_id) ==> {
                &&& spec_valid(spec, config)
                &&& device_id.0 == old(self).next_device_id
                &&& final(self).next_device_id == device_id.0 + 1
                &&& final(self).has_device(device_id)
                &&& final(self).device_heads@[device_id.0].generation == DeviceGeneration(1)
                &&& final(self).device_heads@[device_id.0].latest_commit == CommitSeq(0)
                &&& final(self).device_specs@ == old(self).device_specs@.insert(device_id.0, spec)
                &&& final(self).device_heads@.remove(device_id.0) == old(self).device_heads@
                &&& final(self).roots_of(device_id).len() == shard_count_of(spec, config)
                &&& holds_nothing(
                    final(self).nodes(),
                    final(self).roots_of(device_id),
                    spec.logical_blocks as int,
                )
            },
            result is Err ==> !spec_valid(spec, config) || final(self).next_device_id == u128::MAX
                || final(self).trees.next_metadata_node_id == u128::MAX,
            result is Err ==> final(self).device_heads == old(self).device_heads
                && final(self).device_specs == old(self).device_specs && final(self).next_device_id
                == old(self).next_device_id,
            !spec_valid(spec, config) ==> (result matches Err(error) && error is InvalidArgument),
            result matches Err(error) ==> error is InvalidArgument || error is Conflict,
    {
        let ghost before = *self;
        let bs: u64 = config.block_size as u64;
        if spec.logical_blocks == 0 {
            return Err(StorageError::invalid_argument("device must contain at least one block"));
        }
        if spec.block_size != config.block_size {
            return Err(
                StorageError::invalid_argument("device block size must match store block size"),
            );
        }
        match spec.logical_blocks.checked_mul(bs) {
            Some(_) => {},
            None => return Err(StorageError::invalid_argument("device byte length overflows u64")),
        }
        if config.shard_count > u32::MAX as usize && spec.logical_blocks > u32::MAX as u64 {
            return Err(StorageError::invalid_argument("shard index overflows u32"));
        }
        if self.next_device_id == u128::MAX {
            return Err(StorageError::conflict("device id overflow"));
        }
        let roots = match build_device_roots(self, config, spec.logical_blocks) {
            Ok(roots) => roots,
            Err(error) => {
                proof {
                    lemma_devices_kept(
                        before.nodes(),
                        self.nodes(),
                        before.device_specs@,
                        before.device_heads@,
                        before.deleted_device_heads@,
                        before.shard_commits@,
                        before.checkpoints@,
                        bs,
                        before.next_device_id,
                    );
                }
                return Err(error);
            },
        };
        let device_id = DeviceId(self.next_device_id);
        let head = DeviceHead {
            device_id,
            generation: DeviceGeneration(1),
            shard_roots: roots,
            latest_commit: CommitSeq(0),
        };
        self.next_device_id = self.next_device_id + 1;
        self.device_specs.insert(device_id.raw(), spec);
        self.device_heads.insert(device_id.raw(), head);
        proof {
            let id = device_id.0;
            lemma_devices_kept(
                before.nodes(),
                self.nodes(),
                before.device_specs@,
                before.device_heads@,
                before.deleted_device_heads@,
                before.shard_commits@,
                before.checkpoints@,
                bs,
                before.next_device_id,
            );
            assert(!before.device_heads@.contains_key(id));
            assert(self.device_heads@.remove(id) =~= before.device_heads@);
            assert forall|other: u128| #[trigger] self.device_heads@.contains_key(other) implies other
                < self.next_device_id && head_wf(
                self.nodes(),
                self.device_specs@,
                self.device_heads@[other],
                other,
                bs,
            ) by {
                if other != id {
                    assert(before.device_heads@.contains_key(other));
                }
            }
            assert forall|i: int| 0 <= i < self.shard_commits@.len() implies shard_commit_wf(
                self.nodes(),
                self.device_heads@,
                #[trigger] self.shard_commits@[i],
            ) by {
                assert(before.device_specs@.contains_key(before.shard_commits@[i].device_id.0));
                assert(shard_commit_wf(
                    self.nodes(),
                    before.device_heads@,
                    before.shard_commits@[i],
                ));
            }
            assert forall|other: u128| #[trigger] self.deleted_device_heads@.contains_key(
                other,
            ) implies other < self.next_device_id && head_wf(
                self.nodes(),
                self.device_specs@,
                self.deleted_device_heads@[other],
                other,
                bs,
            ) && !self.device_heads@.contains_key(other) by {
                assert(other < before.next_device_id);
            }
            assert forall|c: u128| #[trigger]
                self.checkpoints@.contains_key(c) implies crate::metadata::checkpoint_wf(
                self.nodes(),
                self.device_specs@,
                self.checkpoints@[c],
                bs,
            ) by {
                assert(crate::metadata::checkpoint_wf(
                    self.nodes(),
                    before.device_specs@,
                    self.checkpoints@[c],
                    bs,
                ));
                if let MappingOwner::BlockDevice(d) = self.checkpoints@[c].owner {
                    if before.device_specs@.contains_key(d.0) {
                        assert(d.0 < before.next_device_id);
                    }
                }
            }
        }
        Ok(device_id)
    }
}

} // verus!
