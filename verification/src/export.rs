//! The metadata as it stood at a commit, whole or as the part that an earlier
//! export has not written.
use vstd::prelude::*;

use crate::device_history::roots_at;
use crate::error::StorageError;
use crate::export_cursor::DurableExportCursor;
use crate::export_rows::{
    add_list_names, add_map_names, add_picked_names, at_least, between, first_missing,
    keys_between, latest_in_list, latest_in_map, lemma_taken, list_has_commit, list_names,
    map_has_commit, map_names, picked_names, rows_between, NameKind, Names, OfCommit,
};
use crate::id::{CommitSeq, DeviceId, KeyspaceId};
use crate::idmap::{is_walk, IdMap};
use crate::keyspace_history::count_at;
use crate::metadata::{FileWriterEpoch, MetadataInner};
use crate::metadata_records::{
    Checkpoint, CheckpointRoots, CommitGroup, DeviceHead, KeyspaceHead, MappingOwner, RootUpdate,
};
use crate::reach::{closed_down, collect_all, reaches, roots_stored, set_reaches};
use crate::tree::copy_vec;

verus! {

/// Where an export begins: everything older has been written before.
pub struct ExportFloors {
    pub commit_seq: u64,
    pub commit_group_id: u128,
    pub checkpoint_id: u128,
    pub metadata_node_id: u128,
    pub keyspace_root_id: u128,
    pub keyspace_catalog_shard_id: u128,
}

pub open spec fn floors_of(previous: Option<&DurableExportCursor>) -> ExportFloors {
    match previous {
        Some(cursor) => ExportFloors {
            commit_seq: cursor.next_commit_seq,
            commit_group_id: cursor.next_commit_group_id,
            checkpoint_id: cursor.next_checkpoint_id,
            metadata_node_id: cursor.next_metadata_node_id,
            keyspace_root_id: cursor.next_keyspace_root_id,
            keyspace_catalog_shard_id: cursor.next_keyspace_catalog_shard_id,
        },
        None => ExportFloors {
            commit_seq: 0,
            commit_group_id: 0,
            checkpoint_id: 0,
            metadata_node_id: 0,
            keyspace_root_id: 0,
            keyspace_catalog_shard_id: 0,
        },
    }
}

pub(crate) fn export_floors(previous: Option<&DurableExportCursor>) -> (floors: ExportFloors)
    ensures
        floors == floors_of(previous),
{
    match previous {
        Some(cursor) => ExportFloors {
            commit_seq: cursor.next_commit_seq,
            commit_group_id: cursor.next_commit_group_id,
            checkpoint_id: cursor.next_checkpoint_id,
            metadata_node_id: cursor.next_metadata_node_id,
            keyspace_root_id: cursor.next_keyspace_root_id,
            keyspace_catalog_shard_id: cursor.next_keyspace_catalog_shard_id,
        },
        None => ExportFloors {
            commit_seq: 0,
            commit_group_id: 0,
            checkpoint_id: 0,
            metadata_node_id: 0,
            keyspace_root_id: 0,
            keyspace_catalog_shard_id: 0,
        },
    }
}

/// Whether a number is the next one after some, and not below a bound.
pub open spec fn is_next(used: Set<u128>, floor: u128, next: u128) -> bool {
    &&& next >= floor
    &&& forall|id: u128| #[trigger] used.contains(id) ==> id < next
    &&& next == floor || used.contains((next - 1) as u128)
}

/// The next number after the largest of some, and not below a bound.
pub(crate) fn next_u128_after_max(
    max: Option<u128>,
    floor: u128,
    used: Ghost<Set<u128>>,
) -> (result: Result<u128, StorageError>)
    requires
        max is None ==> used@ == Set::<u128>::empty(),
        max matches Some(largest) ==> used@.contains(largest) && forall|id: u128| #[trigger]
            used@.contains(id) ==> id <= largest,
    ensures
        result is Ok <==> !used@.contains(u128::MAX),
        result matches Ok(next) ==> is_next(used@, floor, next),
        result matches Err(error) ==> error is Conflict,
{
    match max {
        Some(largest) => {
            if largest == u128::MAX {
                return Err(StorageError::conflict("durable cursor id overflow"));
            }
            let next: u128 = largest + 1;
            if next >= floor {
                Ok(next)
            } else {
                Ok(floor)
            }
        },
        None => Ok(floor),
    }
}

fn larger(a: Option<u128>, b: Option<u128>) -> (max: Option<u128>)
    ensures
        max is None <==> a is None && b is None,
        max matches Some(m) ==> (a == Some(m) || b == Some(m)) && (a matches Some(x) ==> x <= m)
            && (b matches Some(x) ==> x <= m),
{
    match (a, b) {
        (Some(x), Some(y)) => if x < y {
            Some(y)
        } else {
            Some(x)
        },
        (Some(x), None) => Some(x),
        (None, y) => y,
    }
}

impl MetadataInner {
    /// Whether a commit, not later than a point, was about an owner.
    pub open spec fn commit_about(&self, owner: MappingOwner, at: u64, seq: u64) -> bool {
        ||| list_has_commit(self.shard_commits@, owner, at, seq)
        ||| list_has_commit(self.keyspace_commits@, owner, at, seq)
        ||| map_has_commit(self.fork_records@, owner, at, seq)
        ||| map_has_commit(self.delete_records@, owner, at, seq)
        ||| map_has_commit(self.checkpoints@, owner, at, seq)
    }

    /// Whether a commit is the latest about an owner up to a point; zero
    /// stands for none.
    pub open spec fn is_latest(&self, owner: MappingOwner, at: u64, latest: u64) -> bool {
        &&& latest == 0 || self.commit_about(owner, at, latest)
        &&& forall|seq: u64| #[trigger] self.commit_about(owner, at, seq) ==> seq <= latest
    }

    /// The latest commit about a device or a keyspace up to a point.
    pub fn latest_commit_at_or_before(&self, owner: MappingOwner, at: CommitSeq) -> (latest:
        CommitSeq)
        ensures
            self.is_latest(owner, at.0, latest.0),
    {
        let mut latest: u64 = latest_in_list(&self.shard_commits, owner, at.0);
        let keyspace = latest_in_list(&self.keyspace_commits, owner, at.0);
        if keyspace > latest {
            latest = keyspace;
        }
        let forked = latest_in_map(&self.fork_records, owner, at.0);
        if forked > latest {
            latest = forked;
        }
        let deleted = latest_in_map(&self.delete_records, owner, at.0);
        if deleted > latest {
            latest = deleted;
        }
        let checkpoint = latest_in_map(&self.checkpoints, owner, at.0);
        if checkpoint > latest {
            latest = checkpoint;
        }
        CommitSeq(latest)
    }

    /// Whether history leads back to a device at a point.
    pub open spec fn replayable(&self, id: u128, at: u64) -> bool {
        at >= self.history_floor && !self.forked_after(DeviceId(id), at)
    }

    /// Whether a device was there, and not deleted, at a point.
    pub open spec fn live_at(&self, id: u128, at: u64) -> bool {
        if self.device_heads@.contains_key(id) {
            self.device_heads@[id].latest_commit.0 <= at || self.replayable(id, at)
        } else {
            &&& self.deleted_device_heads@.contains_key(id)
            &&& self.deleted_device_heads@[id].latest_commit.0 > at
            &&& self.replayable(id, at)
        }
    }

    /// Whether a head is that of a device at a point.
    pub open spec fn head_at(&self, id: u128, at: u64, head: DeviceHead) -> bool {
        let now = if self.device_heads@.contains_key(id) {
            self.device_heads@[id]
        } else {
            self.deleted_device_heads@[id]
        };
        &&& head.device_id == now.device_id
        &&& head.generation == now.generation
        &&& if now.latest_commit.0 <= at {
            head.shard_roots@ == now.shard_roots@ && head.latest_commit == now.latest_commit
        } else {
            &&& head.shard_roots@ == roots_at(
                now.shard_roots@,
                self.shard_commits@,
                DeviceId(id),
                at,
            )
            &&& self.is_latest(MappingOwner::BlockDevice(DeviceId(id)), at, head.latest_commit.0)
        }
    }

    fn rewound_head(&self, device_id: DeviceId, head: &DeviceHead, at: CommitSeq, block_size: Ghost<u64>) -> (result: Option<DeviceHead>)
        requires
            self.devices_wf(block_size@),
            self.any_device(device_id),
            *head == if self.device_heads@.contains_key(device_id.0) {
                self.device_heads@[device_id.0]
            } else {
                self.deleted_device_heads@[device_id.0]
            },
        ensures
            result is Some <==> head.latest_commit.0 <= at.0 || self.replayable(device_id.0, at.0),
            result matches Some(then) ==> self.head_at(device_id.0, at.0, then),
    {
        if head.latest_commit.0 <= at.0 {
            return Some(
                DeviceHead {
                    device_id: head.device_id,
                    generation: head.generation,
                    shard_roots: copy_vec(&head.shard_roots),
                    latest_commit: head.latest_commit,
                },
            );
        }
        match self.replay_device_roots(device_id, at, block_size) {
            Ok(roots) => {
                let latest = self.latest_commit_at_or_before(
                    MappingOwner::BlockDevice(device_id),
                    at,
                );
                Some(
                    DeviceHead {
                        device_id: head.device_id,
                        generation: head.generation,
                        shard_roots: roots,
                        latest_commit: latest,
                    },
                )
            },
            Err(_) => None,
        }
    }

    /// The heads of the devices that were there at a point.
    fn device_heads_at(&self, at: CommitSeq, block_size: Ghost<u64>) -> (heads: IdMap<DeviceHead>)
        requires
            self.devices_wf(block_size@),
        ensures
            forall|id: u128| #[trigger] heads@.contains_key(id) <==> self.live_at(id, at.0),
            forall|id: u128| #[trigger]
                heads@.contains_key(id) ==> self.head_at(id, at.0, heads@[id]),
    {
        let mut heads: IdMap<DeviceHead> = IdMap::new();
        let count: usize = self.device_heads.len();
        let ghost keys = self.device_heads.keys();
        let mut next: usize = 0;
        while next < count
            invariant
                next <= count,
                count == keys.len(),
                keys == self.device_heads.keys(),
                is_walk(keys, self.device_heads@),
                self.devices_wf(block_size@),
                forall|id: u128| #[trigger]
                    heads@.contains_key(id) <==> keys.take(next as int).contains(id)
                        && self.live_at(id, at.0),
                forall|id: u128| #[trigger]
                    heads@.contains_key(id) ==> self.head_at(id, at.0, heads@[id]),
            decreases count - next,
        {
            let (id, head) = self.device_heads.entry_at(next);
            proof {
                lemma_taken(keys, next as int);
            }
            match self.rewound_head(DeviceId(id), head, at, block_size) {
                Some(then) => {
                    heads.insert(id, then);
                },
                None => {},
            }
            next = next + 1;
        }
        proof {
            assert(keys.take(next as int) =~= keys);
            assert forall|id: u128| keys.contains(id) <==> self.device_heads@.contains_key(id) by {}
        }
        let deleted_count: usize = self.deleted_device_heads.len();
        let ghost deleted = self.deleted_device_heads.keys();
        let mut later: usize = 0;
        while later < deleted_count
            invariant
                later <= deleted_count,
                deleted_count == deleted.len(),
                deleted == self.deleted_device_heads.keys(),
                is_walk(deleted, self.deleted_device_heads@),
                self.devices_wf(block_size@),
                forall|id: u128| #[trigger]
                    heads@.contains_key(id) <==> (self.device_heads@.contains_key(id)
                        || deleted.take(later as int).contains(id)) && self.live_at(id, at.0),
                forall|id: u128| #[trigger]
                    heads@.contains_key(id) ==> self.head_at(id, at.0, heads@[id]),
            decreases deleted_count - later,
        {
            let (id, head) = self.deleted_device_heads.entry_at(later);
            proof {
                lemma_taken(deleted, later as int);
                assert(!self.device_heads@.contains_key(id));
            }
            if head.latest_commit.0 > at.0 {
                match self.rewound_head(DeviceId(id), head, at, block_size) {
                    Some(then) => {
                        heads.insert(id, then);
                    },
                    None => {},
                }
            }
            later = later + 1;
        }
        proof {
            assert(deleted.take(later as int) =~= deleted);
            assert forall|id: u128|
                deleted.contains(id) <==> self.deleted_device_heads@.contains_key(id) by {}
        }
        heads
    }

    /// The keys of the deleted devices that were deleted at a point.
    fn deleted_at(&self, at: CommitSeq) -> (deleted: IdMap<()>)
        ensures
            forall|id: u128| #[trigger]
                deleted@.contains_key(id) <==> self.deleted_device_heads@.contains_key(id)
                    && self.deleted_device_heads@[id].latest_commit.0 <= at.0,
    {
        let mut kept: IdMap<()> = IdMap::new();
        let count: usize = self.deleted_device_heads.len();
        let ghost keys = self.deleted_device_heads.keys();
        let mut next: usize = 0;
        while next < count
            invariant
                next <= count,
                count == keys.len(),
                keys == self.deleted_device_heads.keys(),
                is_walk(keys, self.deleted_device_heads@),
                forall|id: u128| #[trigger]
                    kept@.contains_key(id) <==> keys.take(next as int).contains(id)
                        && self.deleted_device_heads@[id].latest_commit.0 <= at.0,
            decreases count - next,
        {
            let (id, head) = self.deleted_device_heads.entry_at(next);
            proof {
                lemma_taken(keys, next as int);
            }
            if head.latest_commit.0 <= at.0 {
                kept.insert(id, ());
            }
            next = next + 1;
        }
        proof {
            assert(keys.take(next as int) =~= keys);
            assert forall|id: u128|
                keys.contains(id) <==> self.deleted_device_heads@.contains_key(id) by {}
        }
        kept
    }

    /// Whether a keyspace was there at a point.
    pub open spec fn keyspace_live_at(&self, id: u128, at: u64) -> bool {
        self.keyspace_heads@.contains_key(id) && (self.keyspace_heads@[id].latest_commit.0 <= at
            || self.keyspace_known_at(KeyspaceId(id), at))
    }

    /// Whether a head is that of a keyspace at a point.
    pub open spec fn keyspace_head_at(&self, id: u128, at: u64, head: KeyspaceHead) -> bool {
        let now = self.keyspace_heads@[id];
        &&& head.keyspace_id == now.keyspace_id
        &&& head.generation == now.generation
        &&& if now.latest_commit.0 <= at {
            head.shard_roots@ == now.shard_roots@ && head.latest_commit == now.latest_commit
                && head.file_count == now.file_count
        } else {
            &&& head.shard_roots@ == self.catalog_then(KeyspaceId(id), at)
            &&& head.file_count == count_at(
                now.file_count,
                self.keyspace_commits@,
                KeyspaceId(id),
                at,
            )
            &&& self.is_latest(
                MappingOwner::NativeKeyspace(KeyspaceId(id)),
                at,
                head.latest_commit.0,
            )
        }
    }

    /// Whether the history of a keyspace contradicts itself.
    pub open spec fn keyspace_history_broken(&self, id: u128, at: u64) -> bool {
        &&& self.keyspace_heads@.contains_key(id)
        &&& self.keyspace_heads@[id].latest_commit.0 > at
        &&& self.keyspace_known_at(KeyspaceId(id), at)
        &&& !self.keyspace_past_sound(KeyspaceId(id), at)
    }

    /// The heads of the keyspaces that were there at a point.
    fn keyspace_heads_at(&self, at: CommitSeq, block_size: Ghost<u64>) -> (result: Result<
        IdMap<KeyspaceHead>,
        StorageError,
    >)
        requires
            self.files_wf(block_size@),
        ensures
            result is Ok <==> forall|id: u128| !#[trigger] self.keyspace_history_broken(id, at.0),
            result matches Ok(heads) ==> (forall|id: u128| #[trigger]
                heads@.contains_key(id) <==> self.keyspace_live_at(id, at.0)) && (forall|id: u128|
             #[trigger]
                heads@.contains_key(id) ==> self.keyspace_head_at(id, at.0, heads@[id])),
            result matches Err(error) ==> error is Corrupt,
    {
        let mut heads: IdMap<KeyspaceHead> = IdMap::new();
        let count: usize = self.keyspace_heads.len();
        let ghost keys = self.keyspace_heads.keys();
        let mut next: usize = 0;
        while next < count
            invariant
                next <= count,
                count == keys.len(),
                keys == self.keyspace_heads.keys(),
                is_walk(keys, self.keyspace_heads@),
                self.files_wf(block_size@),
                forall|id: u128| #[trigger]
                    heads@.contains_key(id) <==> keys.take(next as int).contains(id)
                        && self.keyspace_live_at(id, at.0),
                forall|id: u128| #[trigger]
                    heads@.contains_key(id) ==> self.keyspace_head_at(id, at.0, heads@[id]),
                forall|id: u128|
                    keys.take(next as int).contains(id)
                        ==> !#[trigger] self.keyspace_history_broken(id, at.0),
            decreases count - next,
        {
            let (id, head) = self.keyspace_heads.entry_at(next);
            proof {
                lemma_taken(keys, next as int);
            }
            if head.latest_commit.0 <= at.0 {
                heads.insert(
                    id,
                    KeyspaceHead {
                        keyspace_id: head.keyspace_id,
                        generation: head.generation,
                        shard_roots: copy_vec(&head.shard_roots),
                        file_count: head.file_count,
                        latest_commit: head.latest_commit,
                    },
                );
            } else {
                match self.replay_keyspace_root(KeyspaceId(id), at, block_size) {
                    Ok((roots, file_count)) => {
                        let latest = self.latest_commit_at_or_before(
                            MappingOwner::NativeKeyspace(KeyspaceId(id)),
                            at,
                        );
                        heads.insert(
                            id,
                            KeyspaceHead {
                                keyspace_id: head.keyspace_id,
                                generation: head.generation,
                                shard_roots: roots,
                                file_count,
                                latest_commit: latest,
                            },
                        );
                    },
                    Err(StorageError::NotFound { .. }) => {},
                    Err(error) => {
                        assert(self.keyspace_history_broken(id, at.0));
                        return Err(error);
                    },
                }
            }
            next = next + 1;
        }
        proof {
            assert(keys.take(next as int) =~= keys);
            assert forall|id: u128|
                keys.contains(id) <==> self.keyspace_heads@.contains_key(id) by {}
        }
        Ok(heads)
    }
}

/// Whether a commit group has updates that fit its owner.
pub open spec fn group_sound(group: CommitGroup) -> bool {
    forall|i: int|
        0 <= i < group.updates@.len() ==> (#[trigger] group.updates@[i]) is BlockShard
            || group.owner is NativeKeyspace
}

/// Whether a checkpoint has roots that fit its owner.
pub open spec fn checkpoint_sound(checkpoint: Checkpoint) -> bool {
    checkpoint.roots is NativeKeyspace ==> checkpoint.owner is NativeKeyspace
}

/// Whether the rows of a map are those, of another, that are of a commit from
/// one to another and are not below a bound.
pub open spec fn rows_kept<T: OfCommit>(
    before: Map<u128, T>,
    after: Map<u128, T>,
    from: u64,
    to: u64,
    floor: u128,
) -> bool {
    &&& forall|id: u128| #[trigger]
        after.contains_key(id) <==> before.contains_key(id) && from <= before[id].seq_of() <= to
            && id >= floor
    &&& forall|id: u128| #[trigger] after.contains_key(id) ==> after[id] == before[id]
}

/// Whether a map holds just those rows of another that are in a set.
pub open spec fn rows_picked<T>(
    before: Map<u128, T>,
    after: Map<u128, T>,
    keep: spec_fn(u128) -> bool,
) -> bool {
    &&& forall|id: u128| #[trigger]
        after.contains_key(id) <==> before.contains_key(id) && keep(id)
    &&& forall|id: u128| #[trigger] after.contains_key(id) ==> after[id] == before[id]
}

/// The epochs of files that are still named.
pub open spec fn epochs_kept(epochs: Seq<FileWriterEpoch>, of: MetadataInner) -> Seq<
    FileWriterEpoch,
>
    decreases epochs.len(),
{
    if epochs.len() == 0 {
        epochs
    } else {
        let before = epochs_kept(epochs.drop_last(), of);
        if of.names_file(epochs.last().keyspace_id, epochs.last().file_id.0) {
            before.push(epochs.last())
        } else {
            before
        }
    }
}

/// Whether a file number stands in some epochs.
pub open spec fn epoch_files(epochs: Seq<FileWriterEpoch>) -> Set<u128> {
    Set::new(
        |id: u128|
            exists|i: int| 0 <= i < epochs.len() && (#[trigger] epochs[i]).file_id.0 == id,
    )
}

impl MetadataInner {
    /// Whether a row names a root of a metadata tree.
    pub open spec fn names_root(&self, id: u128) -> bool {
        ||| map_names(self.device_heads@, NameKind::Root, id)
        ||| map_names(self.deleted_device_heads@, NameKind::Root, id)
        ||| map_names(self.fork_records@, NameKind::Root, id)
        ||| map_names(self.delete_records@, NameKind::Root, id)
        ||| list_names(self.shard_commits@, NameKind::Root, id)
        ||| list_names(self.file_commits@, NameKind::Root, id)
        ||| map_names(self.commit_groups@, NameKind::Root, id)
        ||| map_names(self.checkpoints@, NameKind::Root, id)
        ||| map_names(self.keyspace_catalog_shards@, NameKind::Root, id)
    }

    /// Whether a row names a device.
    pub open spec fn names_device(&self, id: u128) -> bool {
        ||| map_names(self.device_heads@, NameKind::Device, id)
        ||| map_names(self.deleted_device_heads@, NameKind::Device, id)
        ||| map_names(self.fork_records@, NameKind::Device, id)
        ||| map_names(self.delete_records@, NameKind::Device, id)
        ||| list_names(self.shard_commits@, NameKind::Device, id)
        ||| map_names(self.commit_groups@, NameKind::Device, id)
        ||| map_names(self.checkpoints@, NameKind::Device, id)
    }

    /// Whether a row names a catalog shard.
    pub open spec fn names_shard(&self, id: u128) -> bool {
        ||| map_names(self.keyspace_heads@, NameKind::Shard, id)
        ||| list_names(self.keyspace_commits@, NameKind::Shard, id)
        ||| map_names(self.keyspace_roots@, NameKind::Shard, id)
    }

    /// Whether a row names a catalog shard as one of a keyspace.
    pub open spec fn names_shard_of(&self, keyspace_id: KeyspaceId, id: u128) -> bool {
        ||| map_names(self.keyspace_heads@, NameKind::ShardOf(keyspace_id), id)
        ||| list_names(self.keyspace_commits@, NameKind::ShardOf(keyspace_id), id)
        ||| exists|root: u128| #[trigger]
            self.keyspace_roots@.contains_key(root) && map_names(
                self.checkpoints@,
                NameKind::KeyspaceRootOf(keyspace_id),
                root,
            ) && self.keyspace_roots@[root].names(NameKind::Shard, id)
    }

    /// Whether a row names a file of a keyspace.
    pub open spec fn names_file(&self, keyspace_id: KeyspaceId, id: u128) -> bool {
        ||| list_names(self.file_commits@, NameKind::File(keyspace_id), id)
        ||| map_names(self.commit_groups@, NameKind::File(keyspace_id), id)
        ||| map_names(self.append_streams@, NameKind::File(keyspace_id), id)
        ||| exists|shard: u128| #[trigger]
            self.keyspace_catalog_shards@.contains_key(shard) && self.names_shard_of(
                keyspace_id,
                shard,
            ) && self.keyspace_catalog_shards@[shard].files@.contains_key(id)
    }

    /// Puts the heads back to where they were at a point.
    pub(crate) fn rewind_heads(&mut self, target: CommitSeq, block_size: Ghost<u64>) -> (result: Result<
        (),
        StorageError,
    >)
        requires
            old(self).devices_wf(block_size@),
            old(self).files_wf(block_size@),
        ensures
            *final(self) == (MetadataInner {
                device_heads: final(self).device_heads,
                deleted_device_heads: final(self).deleted_device_heads,
                keyspace_heads: final(self).keyspace_heads,
                ..*old(self)
            }),
            result is Ok <==> forall|id: u128|
                !#[trigger] old(self).keyspace_history_broken(id, target.0),
            result is Ok ==> heads_rewound(*old(self), *final(self), target.0),
            result matches Err(error) ==> error is Corrupt,
    {
        let ghost before = *self;
        let keyspace_heads = match self.keyspace_heads_at(target, block_size) {
            Ok(heads) => heads,
            Err(error) => return Err(error),
        };
        let live = self.device_heads_at(target, block_size);
        let deleted = self.deleted_at(target);
        self.device_heads = live;
        self.deleted_device_heads.retain_keys(&deleted);
        self.keyspace_heads = keyspace_heads;
        Ok(())
    }

    /// Leaves out the rows of other commits.
    pub(crate) fn keep_rows(&mut self, floors: &ExportFloors, target: CommitSeq)
        ensures
            *final(self) == (MetadataInner {
                commit_groups: final(self).commit_groups,
                shard_commits: final(self).shard_commits,
                keyspace_commits: final(self).keyspace_commits,
                file_commits: final(self).file_commits,
                fork_records: final(self).fork_records,
                delete_records: final(self).delete_records,
                checkpoints: final(self).checkpoints,
                ..*old(self)
            }),
            commits_kept(*old(self), *final(self), *floors, target.0),
    {
        let all_groups = keys_between(&self.commit_groups, 0, target.0);
        let groups = at_least(&all_groups, floors.commit_group_id);
        self.commit_groups.retain_keys(&groups);
        self.shard_commits = rows_between(&self.shard_commits, floors.commit_seq, target.0);
        self.keyspace_commits = rows_between(&self.keyspace_commits, floors.commit_seq, target.0);
        self.file_commits = rows_between(&self.file_commits, floors.commit_seq, target.0);
        let forks = keys_between(&self.fork_records, floors.commit_seq, target.0);
        self.fork_records.retain_keys(&forks);
        let deletes = keys_between(&self.delete_records, floors.commit_seq, target.0);
        self.delete_records.retain_keys(&deletes);
        let all_checkpoints = keys_between(&self.checkpoints, 0, target.0);
        let checkpoints = at_least(&all_checkpoints, floors.checkpoint_id);
        self.checkpoints.retain_keys(&checkpoints);
    }

    /// Holds the updates and roots of rows to their owners.
    pub(crate) fn check_owners(&self) -> (result: Result<(), StorageError>)
        ensures
            result is Ok <==> self.owners_sound(),
            result matches Err(error) ==> error is Corrupt,
    {
        let count: usize = self.commit_groups.len();
        let ghost keys = self.commit_groups.keys();
        let mut next: usize = 0;
        while next < count
            invariant
                next <= count,
                count == keys.len(),
                keys == self.commit_groups.keys(),
                is_walk(keys, self.commit_groups@),
                forall|i: int| 0 <= i < next ==> group_sound(self.commit_groups@[#[trigger] keys[i]]),
            decreases count - next,
        {
            let (key, group) = self.commit_groups.entry_at(next);
            let native = match group.owner {
                MappingOwner::NativeKeyspace(_) => true,
                MappingOwner::BlockDevice(_) => false,
            };
            let mut update: usize = 0;
            while update < group.updates.len()
                invariant
                    update <= group.updates@.len(),
                    native == (group.owner is NativeKeyspace),
                    self.commit_groups@.contains_key(key),
                    self.commit_groups@[key] == *group,
                    forall|i: int|
                        0 <= i < update ==> (#[trigger] group.updates@[i]) is BlockShard || native,
                decreases group.updates@.len() - update,
            {
                let block = match &group.updates[update] {
                    RootUpdate::BlockShard(_) => true,
                    _ => false,
                };
                if !block && !native {
                    proof {
                        assert(!(group.updates@[update as int] is BlockShard));
                        assert(!group_sound(self.commit_groups@[key]));
                    }
                    return Err(
                        StorageError::corrupt("block commit group contains native root update"),
                    );
                }
                update = update + 1;
            }
            next = next + 1;
        }
        let checkpoint_count: usize = self.checkpoints.len();
        let ghost ids = self.checkpoints.keys();
        let mut at: usize = 0;
        while at < checkpoint_count
            invariant
                at <= checkpoint_count,
                checkpoint_count == ids.len(),
                ids == self.checkpoints.keys(),
                is_walk(ids, self.checkpoints@),
                forall|i: int| 0 <= i < at ==> checkpoint_sound(self.checkpoints@[#[trigger] ids[i]]),
            decreases checkpoint_count - at,
        {
            let (_id, checkpoint) = self.checkpoints.entry_at(at);
            let sound = match (&checkpoint.roots, checkpoint.owner) {
                (CheckpointRoots::NativeKeyspace(_), MappingOwner::BlockDevice(_)) => false,
                _ => true,
            };
            if !sound {
                return Err(
                    StorageError::corrupt("native keyspace checkpoint has non-keyspace owner"),
                );
            }
            at = at + 1;
        }
        proof {
            assert forall|id: u128| #[trigger] self.commit_groups@.contains_key(id) implies
                group_sound(self.commit_groups@[id]) by {
                assert(keys.contains(id));
                let i = keys.index_of(id);
                assert(keys[i] == id);
            }
            assert forall|id: u128| #[trigger] self.checkpoints@.contains_key(id) implies
                checkpoint_sound(self.checkpoints@[id]) by {
                assert(ids.contains(id));
                let i = ids.index_of(id);
                assert(ids[i] == id);
            }
        }
        Ok(())
    }

    pub open spec fn owners_sound(&self) -> bool {
        &&& forall|id: u128| #[trigger]
            self.commit_groups@.contains_key(id) ==> group_sound(self.commit_groups@[id])
        &&& forall|id: u128| #[trigger]
            self.checkpoints@.contains_key(id) ==> checkpoint_sound(self.checkpoints@[id])
    }

    /// Leaves out the keyspace roots that no row names.
    pub(crate) fn keep_keyspace_roots(&mut self, floor: u128) -> (result: Result<(), StorageError>)
        ensures
            *final(self) == (MetadataInner {
                keyspace_roots: final(self).keyspace_roots,
                ..*old(self)
            }),
            result is Ok <==> forall|id: u128| #[trigger]
                map_names(old(self).checkpoints@, NameKind::KeyspaceRoot, id) && id >= floor
                    ==> old(self).keyspace_roots@.contains_key(id),
            result is Ok ==> rows_picked(
                old(self).keyspace_roots@,
                final(self).keyspace_roots@,
                |id: u128|
                    id >= floor && map_names(old(self).checkpoints@, NameKind::KeyspaceRoot, id),
            ),
            result matches Err(error) ==> error is NotFound,
    {
        let mut named: IdMap<()> = IdMap::new();
        add_map_names(&self.checkpoints, NameKind::KeyspaceRoot, &mut named);
        let kept = at_least(&named, floor);
        if let Some(id) = first_missing(&kept, &self.keyspace_roots) {
            proof {
                assert(kept@.contains_key(id));
                assert(named@.contains_key(id));
                assert(map_names(self.checkpoints@, NameKind::KeyspaceRoot, id));
            }
            return Err(StorageError::not_found("keyspace_root", id));
        }
        proof {
            assert forall|id: u128| #[trigger]
                map_names(self.checkpoints@, NameKind::KeyspaceRoot, id) && id >= floor implies
                self.keyspace_roots@.contains_key(id) by {
                assert(named@.contains_key(id));
                assert(kept@.contains_key(id));
            }
        }
        self.keyspace_roots.retain_keys(&kept);
        Ok(())
    }

    /// Leaves out the catalog shards that no row names.
    pub(crate) fn keep_catalog(&mut self, floor: u128) -> (result: Result<(), StorageError>)
        ensures
            *final(self) == (MetadataInner {
                keyspace_catalog_shards: final(self).keyspace_catalog_shards,
                ..*old(self)
            }),
            result is Ok <==> forall|id: u128| #[trigger]
                old(self).names_shard(id) && id >= floor ==> old(
                    self,
                ).keyspace_catalog_shards@.contains_key(id),
            result is Ok ==> rows_picked(
                old(self).keyspace_catalog_shards@,
                final(self).keyspace_catalog_shards@,
                |id: u128| id >= floor && old(self).names_shard(id),
            ),
            result matches Err(error) ==> error is NotFound,
    {
        let mut named: IdMap<()> = IdMap::new();
        add_map_names(&self.keyspace_heads, NameKind::Shard, &mut named);
        add_list_names(&self.keyspace_commits, NameKind::Shard, &mut named);
        add_map_names(&self.keyspace_roots, NameKind::Shard, &mut named);
        let kept = at_least(&named, floor);
        if let Some(id) = first_missing(&kept, &self.keyspace_catalog_shards) {
            proof {
                assert(kept@.contains_key(id));
                assert(named@.contains_key(id));
                assert(self.names_shard(id));
            }
            return Err(StorageError::not_found("keyspace_catalog_shard", id));
        }
        proof {
            assert forall|id: u128| #[trigger] self.names_shard(id) && id >= floor implies
                self.keyspace_catalog_shards@.contains_key(id) by {
                assert(named@.contains_key(id));
                assert(kept@.contains_key(id));
            }
        }
        self.keyspace_catalog_shards.retain_keys(&kept);
        Ok(())
    }

    /// The roots of metadata trees that rows name.
    fn roots_named(&self) -> (named: IdMap<()>)
        ensures
            forall|id: u128| #[trigger] named@.contains_key(id) <==> self.names_root(id),
    {
        let mut named: IdMap<()> = IdMap::new();
        add_map_names(&self.device_heads, NameKind::Root, &mut named);
        add_map_names(&self.deleted_device_heads, NameKind::Root, &mut named);
        add_map_names(&self.fork_records, NameKind::Root, &mut named);
        add_map_names(&self.delete_records, NameKind::Root, &mut named);
        add_list_names(&self.shard_commits, NameKind::Root, &mut named);
        add_list_names(&self.file_commits, NameKind::Root, &mut named);
        add_map_names(&self.commit_groups, NameKind::Root, &mut named);
        add_map_names(&self.checkpoints, NameKind::Root, &mut named);
        add_map_names(&self.keyspace_catalog_shards, NameKind::Root, &mut named);
        named
    }

    /// Whether a row leads to a node.
    pub open spec fn leads_to(&self, nodes: Map<u128, crate::metadata_records::MetadataNode>, id: u128) -> bool {
        exists|root: u128| #[trigger] self.names_root(root) && reaches(nodes, root, id)
    }

    /// The nodes that rows lead to, down to a bound on their age.
    pub(crate) fn nodes_led_to(&self, floor: u128, block_size: Ghost<u64>) -> (result: Result<
        IdMap<()>,
        StorageError,
    >)
        requires
            crate::tree::tree_wf(self.nodes(), block_size@),
        ensures
            result is Ok <==> forall|id: u128| #[trigger]
                self.names_root(id) && id >= floor ==> self.nodes().contains_key(id),
            result matches Ok(found) ==> closed_down(self.nodes(), found@, floor) && forall|
                id: u128,
            | #[trigger]
                found@.contains_key(id) <==> id >= floor && self.leads_to(self.nodes(), id),
            result matches Err(error) ==> error is NotFound,
    {
        let named = self.roots_named();
        let result = collect_all(&self.trees.nodes, &named, floor, block_size);
        proof {
            if roots_stored(self.nodes(), named@, floor) {
                assert forall|id: u128| #[trigger] self.names_root(id) && id >= floor implies
                    self.nodes().contains_key(id) by {
                    assert(named@.contains_key(id));
                }
            } else {
                let id = choose|id: u128|
                    #![trigger named@.contains_key(id)]
                    named@.contains_key(id) && id >= floor && !self.nodes().contains_key(id);
                assert(self.names_root(id));
            }
            assert forall|id: u128| set_reaches(self.nodes(), named@, id) <==> self.leads_to(
                self.nodes(),
                id,
            ) by {
                if set_reaches(self.nodes(), named@, id) {
                    let root = choose|root: u128| #[trigger]
                        named@.contains_key(root) && reaches(self.nodes(), root, id);
                    assert(self.names_root(root));
                }
                if self.leads_to(self.nodes(), id) {
                    let root = choose|root: u128| #[trigger]
                        self.names_root(root) && reaches(self.nodes(), root, id);
                    assert(named@.contains_key(root));
                }
            }
        }
        result
    }

    /// The files of a keyspace that rows name.
    pub(crate) fn files_named(&self, keyspace_id: KeyspaceId) -> (files: IdMap<()>)
        ensures
            forall|id: u128| #[trigger]
                files@.contains_key(id) <==> self.names_file(keyspace_id, id),
    {
        let mut roots: IdMap<()> = IdMap::new();
        add_map_names(&self.checkpoints, NameKind::KeyspaceRootOf(keyspace_id), &mut roots);
        let mut shards: IdMap<()> = IdMap::new();
        add_map_names(&self.keyspace_heads, NameKind::ShardOf(keyspace_id), &mut shards);
        add_list_names(&self.keyspace_commits, NameKind::ShardOf(keyspace_id), &mut shards);
        let ghost then = shards@;
        add_picked_names(&self.keyspace_roots, &roots, NameKind::Shard, &mut shards);
        proof {
            assert forall|id: u128| #[trigger]
                shards@.contains_key(id) <==> self.names_shard_of(keyspace_id, id) by {
                if picked_names(self.keyspace_roots@, roots@, NameKind::Shard, id) {
                    let root = choose|root: u128| #[trigger]
                        roots@.contains_key(root) && self.keyspace_roots@.contains_key(root)
                            && self.keyspace_roots@[root].names(NameKind::Shard, id);
                    assert(self.keyspace_roots@.contains_key(root));
                }
                if exists|root: u128| #[trigger]
                    self.keyspace_roots@.contains_key(root) && map_names(
                        self.checkpoints@,
                        NameKind::KeyspaceRootOf(keyspace_id),
                        root,
                    ) && self.keyspace_roots@[root].names(NameKind::Shard, id) {
                    let root = choose|root: u128| #[trigger]
                        self.keyspace_roots@.contains_key(root) && map_names(
                            self.checkpoints@,
                            NameKind::KeyspaceRootOf(keyspace_id),
                            root,
                        ) && self.keyspace_roots@[root].names(NameKind::Shard, id);
                    assert(roots@.contains_key(root));
                }
                assert(then.contains_key(id) <==> map_names(
                    self.keyspace_heads@,
                    NameKind::ShardOf(keyspace_id),
                    id,
                ) || list_names(self.keyspace_commits@, NameKind::ShardOf(keyspace_id), id));
            }
        }
        let kind = NameKind::File(keyspace_id);
        let mut files: IdMap<()> = IdMap::new();
        add_list_names(&self.file_commits, kind, &mut files);
        add_map_names(&self.commit_groups, kind, &mut files);
        add_map_names(&self.append_streams, kind, &mut files);
        add_picked_names(&self.keyspace_catalog_shards, &shards, kind, &mut files);
        proof {
            assert forall|id: u128| #[trigger]
                files@.contains_key(id) <==> self.names_file(keyspace_id, id) by {
                if picked_names(self.keyspace_catalog_shards@, shards@, kind, id) {
                    let shard = choose|shard: u128| #[trigger]
                        shards@.contains_key(shard) && self.keyspace_catalog_shards@.contains_key(
                            shard,
                        ) && self.keyspace_catalog_shards@[shard].names(kind, id);
                    assert(self.keyspace_catalog_shards@.contains_key(shard));
                }
                if exists|shard: u128| #[trigger]
                    self.keyspace_catalog_shards@.contains_key(shard) && self.names_shard_of(
                        keyspace_id,
                        shard,
                    ) && self.keyspace_catalog_shards@[shard].files@.contains_key(id) {
                    let shard = choose|shard: u128| #[trigger]
                        self.keyspace_catalog_shards@.contains_key(shard) && self.names_shard_of(
                            keyspace_id,
                            shard,
                        ) && self.keyspace_catalog_shards@[shard].files@.contains_key(id);
                    assert(shards@.contains_key(shard));
                }
            }
        }
        files
    }

    /// The epochs of the files that rows name.
    pub(crate) fn epochs_named(&self) -> (kept: Vec<FileWriterEpoch>)
        ensures
            kept@ == epochs_kept(self.file_writer_epochs@, *self),
    {
        let ghost epochs = self.file_writer_epochs@;
        let mut kept: Vec<FileWriterEpoch> = Vec::new();
        let mut next: usize = 0;
        let mut current = KeyspaceId(0);
        let mut files = self.files_named(current);
        assert(epochs.take(0) =~= Seq::empty());
        while next < self.file_writer_epochs.len()
            invariant
                next <= epochs.len(),
                epochs == self.file_writer_epochs@,
                kept@ == epochs_kept(epochs.take(next as int), *self),
                forall|id: u128| #[trigger]
                    files@.contains_key(id) <==> self.names_file(current, id),
            decreases epochs.len() - next,
        {
            let epoch = self.file_writer_epochs[next];
            if epoch.keyspace_id.0 != current.0 {
                current = epoch.keyspace_id;
                files = self.files_named(current);
            }
            proof {
                assert(epochs.take(next + 1).drop_last() =~= epochs.take(next as int));
                assert(current == epoch.keyspace_id);
            }
            if files.contains_key(epoch.file_id.0) {
                kept.push(epoch);
            }
            next = next + 1;
        }
        assert(epochs.take(next as int) =~= epochs);
        kept
    }

    /// The devices that rows name.
    pub(crate) fn devices_named(&self) -> (named: IdMap<()>)
        ensures
            forall|id: u128| #[trigger] named@.contains_key(id) <==> self.names_device(id),
    {
        let mut named: IdMap<()> = IdMap::new();
        add_map_names(&self.device_heads, NameKind::Device, &mut named);
        add_map_names(&self.deleted_device_heads, NameKind::Device, &mut named);
        add_map_names(&self.fork_records, NameKind::Device, &mut named);
        add_map_names(&self.delete_records, NameKind::Device, &mut named);
        add_list_names(&self.shard_commits, NameKind::Device, &mut named);
        add_map_names(&self.commit_groups, NameKind::Device, &mut named);
        add_map_names(&self.checkpoints, NameKind::Device, &mut named);
        named
    }
}

/// Whether the heads are those of a point.
pub open spec fn heads_rewound(before: MetadataInner, after: MetadataInner, at: u64) -> bool {
    &&& forall|id: u128| #[trigger]
        after.device_heads@.contains_key(id) <==> before.live_at(id, at)
    &&& forall|id: u128| #[trigger]
        after.device_heads@.contains_key(id) ==> before.head_at(id, at, after.device_heads@[id])
    &&& forall|id: u128| #[trigger]
        after.deleted_device_heads@.contains_key(id) <==> before.deleted_device_heads@.contains_key(
            id,
        ) && before.deleted_device_heads@[id].latest_commit.0 <= at
    &&& forall|id: u128| #[trigger]
        after.deleted_device_heads@.contains_key(id) ==> after.deleted_device_heads@[id]
            == before.deleted_device_heads@[id]
    &&& forall|id: u128| #[trigger]
        after.keyspace_heads@.contains_key(id) <==> before.keyspace_live_at(id, at)
    &&& forall|id: u128| #[trigger]
        after.keyspace_heads@.contains_key(id) ==> before.keyspace_head_at(
            id,
            at,
            after.keyspace_heads@[id],
        )
}

/// Whether the rows are those of some commits.
pub open spec fn commits_kept(
    before: MetadataInner,
    after: MetadataInner,
    floors: ExportFloors,
    to: u64,
) -> bool {
    &&& rows_kept(before.commit_groups@, after.commit_groups@, 0, to, floors.commit_group_id)
    &&& after.shard_commits@ == between(before.shard_commits@, floors.commit_seq, to)
    &&& after.keyspace_commits@ == between(before.keyspace_commits@, floors.commit_seq, to)
    &&& after.file_commits@ == between(before.file_commits@, floors.commit_seq, to)
    &&& rows_kept(before.fork_records@, after.fork_records@, floors.commit_seq, to, 0)
    &&& rows_kept(before.delete_records@, after.delete_records@, floors.commit_seq, to, 0)
    &&& rows_kept(before.checkpoints@, after.checkpoints@, 0, to, floors.checkpoint_id)
}

/// The least number that may come next.
pub open spec fn least_next(previous: Option<u128>) -> u128 {
    match previous {
        Some(next) if next > 1 => next,
        _ => 1,
    }
}

fn least_next_number(previous: Option<u128>) -> (least: u128)
    ensures
        least == least_next(previous),
{
    match previous {
        Some(next) => if next > 1 {
            next
        } else {
            1
        },
        None => 1,
    }
}

/// Whether the numbers that come next are past all that is in use.
pub open spec fn numbered(
    after: MetadataInner,
    target: u64,
    previous: Option<&DurableExportCursor>,
) -> bool {
    let from = |next: spec_fn(&DurableExportCursor) -> u128|
        least_next(
            match previous {
                Some(cursor) => Some(next(cursor)),
                None => None,
            },
        );
    &&& is_next(
        after.device_specs@.dom() + after.device_heads@.dom() + after.deleted_device_heads@.dom(),
        from(|cursor: &DurableExportCursor| cursor.next_device_id),
        after.next_device_id,
    )
    &&& is_next(
        after.keyspace_heads@.dom(),
        from(|cursor: &DurableExportCursor| cursor.next_keyspace_id),
        after.next_keyspace_id,
    )
    &&& is_next(
        epoch_files(after.file_writer_epochs@),
        from(|cursor: &DurableExportCursor| cursor.next_file_id),
        after.next_file_id,
    )
    &&& is_next(
        after.nodes().dom(),
        from(|cursor: &DurableExportCursor| cursor.next_metadata_node_id),
        after.trees.next_metadata_node_id,
    )
    &&& is_next(
        after.keyspace_roots@.dom(),
        from(|cursor: &DurableExportCursor| cursor.next_keyspace_root_id),
        after.next_keyspace_root_id,
    )
    &&& is_next(
        after.keyspace_catalog_shards@.dom(),
        from(|cursor: &DurableExportCursor| cursor.next_keyspace_catalog_shard_id),
        after.next_keyspace_catalog_shard_id,
    )
    &&& is_next(
        after.commit_groups@.dom(),
        from(|cursor: &DurableExportCursor| cursor.next_commit_group_id),
        after.next_commit_group_id,
    )
    &&& is_next(
        after.checkpoints@.dom(),
        from(|cursor: &DurableExportCursor| cursor.next_checkpoint_id),
        after.next_checkpoint_id,
    )
    &&& after.next_commit_seq == if previous is Some && (previous->0).next_commit_seq > target {
        (previous->0).next_commit_seq
    } else {
        (target + 1) as u64
    }
}

/// Whether some number in use is the last there is.
pub open spec fn numbers_end(rows: MetadataInner) -> bool {
    ||| rows.device_specs@.contains_key(u128::MAX)
    ||| rows.device_heads@.contains_key(u128::MAX)
    ||| rows.deleted_device_heads@.contains_key(u128::MAX)
    ||| rows.keyspace_heads@.contains_key(u128::MAX)
    ||| epoch_files(rows.file_writer_epochs@).contains(u128::MAX)
    ||| rows.nodes().contains_key(u128::MAX)
    ||| rows.keyspace_roots@.contains_key(u128::MAX)
    ||| rows.keyspace_catalog_shards@.contains_key(u128::MAX)
    ||| rows.commit_groups@.contains_key(u128::MAX)
    ||| rows.checkpoints@.contains_key(u128::MAX)
}

fn next_key<T>(rows: &IdMap<T>, previous: Option<u128>) -> (result: Result<u128, StorageError>)
    ensures
        result is Ok <==> !rows@.contains_key(u128::MAX),
        result matches Ok(next) ==> is_next(rows@.dom(), least_next(previous), next),
        result matches Err(error) ==> error is Conflict,
{
    let max = rows.max_key();
    proof {
        if max is None {
            assert(rows@.dom() =~= Set::<u128>::empty());
        }
    }
    next_u128_after_max(max, least_next_number(previous), Ghost(rows@.dom()))
}

fn max_file(epochs: &Vec<FileWriterEpoch>) -> (max: Option<u128>)
    ensures
        max is None ==> epoch_files(epochs@) == Set::<u128>::empty(),
        max matches Some(largest) ==> epoch_files(epochs@).contains(largest) && forall|id: u128|
         #[trigger]
            epoch_files(epochs@).contains(id) ==> id <= largest,
{
    let mut max: Option<u128> = None;
    let mut next: usize = 0;
    while next < epochs.len()
        invariant
            next <= epochs@.len(),
            max is None ==> next == 0,
            max matches Some(largest) ==> epoch_files(epochs@).contains(largest) && forall|i: int|
                0 <= i < next ==> (#[trigger] epochs@[i]).file_id.0 <= largest,
        decreases epochs@.len() - next,
    {
        let id = epochs[next].file_id.0;
        proof {
            assert(epochs@[next as int].file_id.0 == id);
            assert(epoch_files(epochs@).contains(id));
        }
        max = larger(max, Some(id));
        next = next + 1;
    }
    proof {
        if max is None {
            assert(epoch_files(epochs@) =~= Set::<u128>::empty());
        }
    }
    max
}

impl MetadataInner {
    /// Sets the numbers that come next.
    pub(crate) fn number_rows(&mut self, target: CommitSeq, previous: Option<&DurableExportCursor>) -> (result:
        Result<(), StorageError>)
        ensures
            *final(self) == (MetadataInner {
                trees: final(self).trees,
                next_device_id: final(self).next_device_id,
                next_keyspace_id: final(self).next_keyspace_id,
                next_file_id: final(self).next_file_id,
                next_keyspace_root_id: final(self).next_keyspace_root_id,
                next_keyspace_catalog_shard_id: final(self).next_keyspace_catalog_shard_id,
                next_commit_group_id: final(self).next_commit_group_id,
                next_commit_seq: final(self).next_commit_seq,
                next_checkpoint_id: final(self).next_checkpoint_id,
                ..*old(self)
            }),
            final(self).trees.nodes == old(self).trees.nodes,
            result is Ok <==> target.0 < u64::MAX && !numbers_end(*old(self)),
            result is Ok ==> numbered(*final(self), target.0, previous),
            result matches Err(error) ==> error is Conflict,
    {
        let ghost before = *self;
        let specs = self.device_specs.max_key();
        let live = self.device_heads.max_key();
        let deleted = self.deleted_device_heads.max_key();
        let some_device = larger(specs, live);
        let max_device = larger(some_device, deleted);
        let ghost devices = self.device_specs@.dom() + self.device_heads@.dom()
            + self.deleted_device_heads@.dom();
        proof {
            if max_device is None {
                assert(devices =~= Set::<u128>::empty());
            }
        }
        let next_device_id = match next_u128_after_max(
            max_device,
            least_next_number(
                match previous {
                    Some(cursor) => Some(cursor.next_device_id),
                    None => None,
                },
            ),
            Ghost(devices),
        ) {
            Ok(next) => next,
            Err(error) => return Err(error),
        };
        let next_keyspace_id = match next_key(
            &self.keyspace_heads,
            match previous {
                Some(cursor) => Some(cursor.next_keyspace_id),
                None => None,
            },
        ) {
            Ok(next) => next,
            Err(error) => return Err(error),
        };
        let largest_file = max_file(&self.file_writer_epochs);
        let next_file_id = match next_u128_after_max(
            largest_file,
            least_next_number(
                match previous {
                    Some(cursor) => Some(cursor.next_file_id),
                    None => None,
                },
            ),
            Ghost(epoch_files(self.file_writer_epochs@)),
        ) {
            Ok(next) => next,
            Err(error) => return Err(error),
        };
        let next_metadata_node_id = match next_key(
            &self.trees.nodes,
            match previous {
                Some(cursor) => Some(cursor.next_metadata_node_id),
                None => None,
            },
        ) {
            Ok(next) => next,
            Err(error) => return Err(error),
        };
        let next_keyspace_root_id = match next_key(
            &self.keyspace_roots,
            match previous {
                Some(cursor) => Some(cursor.next_keyspace_root_id),
                None => None,
            },
        ) {
            Ok(next) => next,
            Err(error) => return Err(error),
        };
        let next_keyspace_catalog_shard_id = match next_key(
            &self.keyspace_catalog_shards,
            match previous {
                Some(cursor) => Some(cursor.next_keyspace_catalog_shard_id),
                None => None,
            },
        ) {
            Ok(next) => next,
            Err(error) => return Err(error),
        };
        let next_commit_group_id = match next_key(
            &self.commit_groups,
            match previous {
                Some(cursor) => Some(cursor.next_commit_group_id),
                None => None,
            },
        ) {
            Ok(next) => next,
            Err(error) => return Err(error),
        };
        let next_checkpoint_id = match next_key(
            &self.checkpoints,
            match previous {
                Some(cursor) => Some(cursor.next_checkpoint_id),
                None => None,
            },
        ) {
            Ok(next) => next,
            Err(error) => return Err(error),
        };
        if target.0 == u64::MAX {
            return Err(StorageError::conflict("durable target commit overflows"));
        }
        let mut next_commit_seq: u64 = target.0 + 1;
        if let Some(cursor) = previous {
            if cursor.next_commit_seq > next_commit_seq {
                next_commit_seq = cursor.next_commit_seq;
            }
        }
        self.next_device_id = next_device_id;
        self.next_keyspace_id = next_keyspace_id;
        self.next_file_id = next_file_id;
        self.trees.next_metadata_node_id = next_metadata_node_id;
        self.next_keyspace_root_id = next_keyspace_root_id;
        self.next_keyspace_catalog_shard_id = next_keyspace_catalog_shard_id;
        self.next_commit_group_id = next_commit_group_id;
        self.next_commit_seq = next_commit_seq;
        self.next_checkpoint_id = next_checkpoint_id;
        Ok(())
    }
}

} // verus!
