//! Keyspaces and files: creating them and publishing what they hold.
use vstd::prelude::*;

use crate::block_api::BlockRange;
use crate::config::LocalStoreConfig;
use crate::error::StorageError;
use crate::id::{
    AppendStreamId, BlockCount, BlockIndex, CommitGroupId, CommitSeq, FileId, FileVersion,
    KeyspaceCatalogShardId, KeyspaceGeneration, KeyspaceId, LogicalTime, MetadataNodeId,
    WriterEpoch,
};
use crate::idmap::{IdMap, is_walk};
use crate::metadata::{
    KeyspaceCatalogShard, LiveAppendStream, MetadataInner, catalog_roots_wf, catalog_shard_wf,
    catalog_wf, file_wf, lemma_catalog_kept, lemma_devices_kept,
};
use crate::metadata_records::{
    AppendStreamStatus, CommitGroup, FileCommit, FileHead, KeyspaceCommit, KeyspaceFile,
    KeyspaceHead, MappingOwner, RootUpdate,
};
use crate::native_api::KeyspaceInfo;
use crate::tree::{copy_vec, keeps_nodes};
use crate::tree_build::{build_empty_tree, holds_no_entries, is_empty_tree};

verus! {

/// The shard of a catalog that a file belongs to.
pub open spec fn catalog_index(file_id: FileId, shards: int) -> int {
    file_id.0 as int % shards
}

/// A catalog puts each file into one of its shards, spreads files with numbers in a
/// row over all shards, and leaves no shard without.
pub proof fn law_files_are_spread_over_shards(file_id: FileId, shards: int)
    requires
        shards > 0,
    ensures
        0 <= catalog_index(file_id, shards) < shards,
        file_id.0 < u128::MAX && shards > 1 ==> catalog_index(
            FileId((file_id.0 + 1) as u128),
            shards,
        ) != catalog_index(file_id, shards),
        file_id.0 < shards ==> catalog_index(file_id, shards) == file_id.0,
        file_id.0 + shards <= u128::MAX ==> catalog_index(
            FileId((file_id.0 + shards) as u128),
            shards,
        ) == catalog_index(file_id, shards),
{
    let id = file_id.0 as int;
    vstd::arithmetic::div_mod::lemma_mod_bound(id, shards);
    vstd::arithmetic::div_mod::lemma_mod_add_multiples_vanish(id, shards);
    if id < shards {
        vstd::arithmetic::div_mod::lemma_small_mod(id as nat, shards as nat);
    }
    if shards > 1 && (id + 1) % shards == id % shards {
        vstd::arithmetic::div_mod::lemma_mod_equivalence(id + 1, id, shards);
        assert(1int % shards == 0);
        vstd::arithmetic::div_mod::lemma_small_mod(1, shards as nat);
    }
}

/// The head that a catalog has for a file.
pub open spec fn catalog_head(
    shards: Map<u128, KeyspaceCatalogShard>,
    roots: Seq<KeyspaceCatalogShardId>,
    file_id: FileId,
) -> Option<FileHead> {
    let shard = roots[catalog_index(file_id, roots.len() as int)].0;
    if shards.contains_key(shard) && shards[shard].files@.contains_key(file_id.0) {
        Some(shards[shard].files@[file_id.0].head)
    } else {
        None
    }
}

/// Whether everything in a list is in another.
#[verifier::opaque]
pub open spec fn keeps_all<T>(before: Seq<T>, after: Seq<T>) -> bool {
    forall|i: int| 0 <= i < before.len() ==> after.contains(#[trigger] before[i])
}

pub proof fn lemma_keeps_itself<T>(list: Seq<T>)
    ensures
        keeps_all(list, list),
{
    reveal(keeps_all);
}

pub proof fn lemma_keeps_all_inserted<T>(list: Seq<T>, at: int, item: T)
    requires
        0 <= at <= list.len(),
    ensures
        keeps_all(list, list.insert(at, item)),
{
    reveal(keeps_all);
    let after = list.insert(at, item);
    assert forall|i: int| 0 <= i < list.len() implies after.contains(#[trigger] list[i]) by {
        assert(after[if i < at {
            i
        } else {
            i + 1
        }] == list[i]);
    }
}

/// Whether a stream writes to a file.
pub open spec fn stream_is_of(
    stream: LiveAppendStream,
    keyspace_id: KeyspaceId,
    file_id: FileId,
) -> bool {
    stream.state.keyspace_id == keyspace_id && stream.state.file_id == file_id
}

/// What a file's name is made of.
pub open spec fn name_of(name: Option<String>) -> Option<Seq<char>> {
    match name {
        Some(name) => Some(name@),
        None => None,
    }
}

pub(crate) fn copy_name(name: &Option<String>) -> (copy: Option<String>)
    ensures
        name_of(copy) == name_of(*name),
{
    match name {
        Some(name) => Some(name.clone()),
        None => None,
    }
}

/// Whether two catalog shards hold the same files.
pub open spec fn same_files(a: Map<u128, KeyspaceFile>, b: Map<u128, KeyspaceFile>) -> bool {
    &&& a.dom() == b.dom()
    &&& forall|id: u128| #[trigger]
        a.contains_key(id) ==> a[id].head == b[id].head && name_of(a[id].name) == name_of(
            b[id].name,
        )
}

pub(crate) fn copy_files(files: &IdMap<KeyspaceFile>) -> (copy: IdMap<KeyspaceFile>)
    ensures
        same_files(copy@, files@),
{
    let mut copy: IdMap<KeyspaceFile> = IdMap::new();
    let count = files.len();
    let ghost keys = files.keys();
    let mut i: usize = 0;
    while i < count
        invariant
            i <= count,
            count == keys.len(),
            keys == files.keys(),
            is_walk(keys, files@),
            forall|id: u128| #[trigger]
                copy@.contains_key(id) <==> exists|k: int| 0 <= k < i && keys[k] == id,
            forall|id: u128| #[trigger]
                copy@.contains_key(id) ==> files@.contains_key(id) && copy@[id].head
                    == files@[id].head && name_of(copy@[id].name) == name_of(files@[id].name),
        decreases count - i,
    {
        let ghost before = copy@;
        let (key, file) = files.entry_at(i);
        copy.insert(key, KeyspaceFile { name: copy_name(&file.name), head: file.head });
        proof {
            assert(keys[i as int] == key);
            assert forall|id: u128| #[trigger] copy@.contains_key(id) <==> exists|k: int|
                0 <= k < i + 1 && keys[k] == id by {
                if copy@.contains_key(id) {
                    if id == key {
                        assert(keys[i as int] == id);
                    } else {
                        assert(before.contains_key(id));
                        let k = choose|k: int| 0 <= k < i && keys[k] == id;
                        assert(keys[k] == id);
                    }
                }
                if exists|k: int| 0 <= k < i + 1 && keys[k] == id {
                    let k = choose|k: int| 0 <= k < i + 1 && keys[k] == id;
                    if k < i {
                        assert(before.contains_key(id));
                    }
                }
            }
        }
        i = i + 1;
    }
    proof {
        assert forall|id: u128| copy@.contains_key(id) <==> files@.contains_key(id) by {
            if files@.contains_key(id) {
                assert(keys.contains(id));
                let k = choose|k: int| 0 <= k < keys.len() && keys[k] == id;
                assert(keys[k] == id);
                assert(copy@.contains_key(id));
            }
        }
        assert(copy@.dom() =~= files@.dom());
    }
    copy
}

/// What a publish of a file expects.
#[derive(Clone, Copy, PartialEq, Eq, Structural, Debug)]
pub enum FileFence {
    Version(FileVersion),
    Stream { stream_id: AppendStreamId, writer_epoch: WriterEpoch },
}

/// Whether a commit group with one update was added and no other touched.
pub open spec fn group_added(
    before: Map<u128, CommitGroup>,
    after: Map<u128, CommitGroup>,
    group: CommitGroupId,
    commit_seq: CommitSeq,
    keyspace_id: KeyspaceId,
    update: RootUpdate,
) -> bool {
    &&& after.contains_key(group.0)
    &&& after[group.0].commit_group == group
    &&& after[group.0].commit_seq == commit_seq
    &&& after[group.0].owner == MappingOwner::NativeKeyspace(keyspace_id)
    &&& after[group.0].updates@ == seq![update]
    &&& after.remove(group.0) == before.remove(group.0)
}

/// The record of a file's commit.
pub open spec fn file_commit_of(
    group: CommitGroupId,
    keyspace_id: KeyspaceId,
    old_head: FileHead,
    new_head: FileHead,
) -> FileCommit {
    FileCommit {
        commit_seq: new_head.latest_commit,
        commit_group: group,
        time: LogicalTime(new_head.latest_commit.0),
        keyspace_id,
        file_id: new_head.file_id,
        old_root: Some(old_head.root),
        new_root: new_head.root,
        old_version: Some(old_head.version),
        new_version: new_head.version,
        old_size: old_head.size,
        new_size: new_head.size,
    }
}

/// What a commit that gives a file another head does to roots.
pub open spec fn file_update_of(old_head: FileHead, new_head: FileHead) -> RootUpdate {
    RootUpdate::FileRoot {
        file_id: new_head.file_id,
        old_root: old_head.root,
        new_root: new_head.root,
        new_size: new_head.size,
    }
}

impl MetadataInner {
    pub open spec fn has_keyspace(&self, keyspace_id: KeyspaceId) -> bool {
        self.keyspace_heads@.contains_key(keyspace_id.0)
    }

    pub open spec fn catalog_of(&self, keyspace_id: KeyspaceId) -> Seq<KeyspaceCatalogShardId> {
        self.keyspace_heads@[keyspace_id.0].shard_roots@
    }

    /// The current state of a file, if it is there.
    pub open spec fn file_head(&self, keyspace_id: KeyspaceId, file_id: FileId) -> Option<
        FileHead,
    > {
        if self.has_keyspace(keyspace_id) {
            catalog_head(
                self.keyspace_catalog_shards@,
                self.catalog_of(keyspace_id),
                file_id,
            )
        } else {
            None
        }
    }

    pub open spec fn has_file(&self, keyspace_id: KeyspaceId, file_id: FileId) -> bool {
        self.file_head(keyspace_id, file_id) is Some
    }

    /// A file's head fits its tree.
    pub proof fn lemma_file_wf(&self, keyspace_id: KeyspaceId, file_id: FileId, block_size: u64)
        requires
            self.files_wf(block_size),
            self.has_file(keyspace_id, file_id),
        ensures
            self.file_head(keyspace_id, file_id)->0.file_id == file_id,
            self.nodes().contains_key(self.file_head(keyspace_id, file_id)->0.root.0),
            self.nodes()[self.file_head(
                keyspace_id,
                file_id,
            )->0.root.0].covered_range.start.0 == 0,
            self.file_head(keyspace_id, file_id)->0.size <= self.nodes()[self.file_head(
                keyspace_id,
                file_id,
            )->0.root.0].covered_range.end() * block_size,
    {
        let roots = self.catalog_of(keyspace_id);
        assert(self.keyspace_heads@.contains_key(keyspace_id.0));
        let shard = roots[catalog_index(file_id, roots.len() as int)].0;
        let shards = self.keyspace_catalog_shards@;
        assert(shards.contains_key(shard));
        assert(catalog_shard_wf(self.nodes(), shards[shard], block_size, self.next_file_id));
        assert(file_wf(
            self.nodes(),
            shards[shard].files@[file_id.0],
            file_id.0,
            block_size,
            self.next_file_id,
        ));
    }

    /// The current state of a file.
    pub fn get_file_head(&self, keyspace_id: KeyspaceId, file_id: FileId) -> (result: Result<
        FileHead,
        StorageError,
    >)
        requires
            exists|block_size: u64| self.files_wf(block_size),
        ensures
            result is Ok <==> self.has_file(keyspace_id, file_id),
            result matches Ok(head) ==> self.file_head(keyspace_id, file_id) == Some(head),
            result matches Err(error) ==> error == if !self.has_keyspace(keyspace_id) {
                (StorageError::NotFound { kind: "keyspace", id: keyspace_id.0 })
            } else {
                (StorageError::NotFound { kind: "file", id: file_id.0 })
            },
    {
        let ghost bs = choose|block_size: u64| self.files_wf(block_size);
        let head = match self.keyspace_heads.get(keyspace_id.raw()) {
            Some(head) => head,
            None => return Err(StorageError::not_found("keyspace", keyspace_id.raw())),
        };
        proof {
            assert(self.files_wf(bs));
            assert(self.keyspace_heads@.contains_key(keyspace_id.0));
        }
        let index = shard_index_of(file_id, head.shard_roots.len());
        let shard_id = head.shard_roots[index];
        match self.keyspace_catalog_shards.get(shard_id.raw()) {
            Some(shard) => match shard.files.get(file_id.raw()) {
                Some(file) => Ok(file.head),
                None => Err(StorageError::not_found("file", file_id.raw())),
            },
            None => {
                assert(false);
                Err(StorageError::not_found("file", file_id.raw()))
            },
        }
    }

    pub open spec fn same_outside_files(&self, other: &MetadataInner) -> bool {
        &&& self.device_specs == other.device_specs
        &&& self.device_heads == other.device_heads
        &&& self.deleted_device_heads == other.deleted_device_heads
        &&& self.keyspace_roots == other.keyspace_roots
        &&& self.keyspace_births == other.keyspace_births
        &&& self.file_writer_epochs == other.file_writer_epochs
        &&& self.append_streams == other.append_streams
        &&& self.append_publish_in_flight == other.append_publish_in_flight
        &&& self.append_publish_tickets == other.append_publish_tickets
        &&& self.shard_commits == other.shard_commits
        &&& self.fork_records == other.fork_records
        &&& self.delete_records == other.delete_records
        &&& self.checkpoints == other.checkpoints
        &&& self.metadata_last_mark_epoch == other.metadata_last_mark_epoch
        &&& self.segment_last_mark_epoch == other.segment_last_mark_epoch
        &&& self.next_device_id == other.next_device_id
        &&& self.next_keyspace_root_id == other.next_keyspace_root_id
        &&& self.next_checkpoint_id == other.next_checkpoint_id
        &&& self.next_append_stream_id == other.next_append_stream_id
        &&& self.next_append_ticket_id == other.next_append_ticket_id
        &&& self.next_append_publish_ticket_id == other.next_append_publish_ticket_id
        &&& self.next_gc_epoch == other.next_gc_epoch
        &&& self.history_floor == other.history_floor
    }

    /// Whether no record of a file's or a keyspace's commit is gone.
    pub open spec fn records_kept(&self, before: &MetadataInner) -> bool {
        &&& keeps_all(before.file_commits@, self.file_commits@)
        &&& keeps_all(before.keyspace_commits@, self.keyspace_commits@)
    }

    pub proof fn lemma_own_records(&self)
        ensures
            self.records_kept(self),
    {
        lemma_keeps_itself(self.file_commits@);
        lemma_keeps_itself(self.keyspace_commits@);
    }

    /// Whether everything is as it was but one keyspace's files, the streams and
    /// tickets of one file, and the trees.
    pub open spec fn rest_kept(
        &self,
        before: &MetadataInner,
        keyspace_id: KeyspaceId,
        file_id: FileId,
    ) -> bool {
        &&& self.device_specs == before.device_specs
        &&& self.device_heads == before.device_heads
        &&& self.deleted_device_heads == before.deleted_device_heads
        &&& self.keyspace_roots == before.keyspace_roots
        &&& self.keyspace_births == before.keyspace_births
        &&& self.shard_commits == before.shard_commits
        &&& self.fork_records == before.fork_records
        &&& self.delete_records == before.delete_records
        &&& self.checkpoints == before.checkpoints
        &&& self.metadata_last_mark_epoch == before.metadata_last_mark_epoch
        &&& self.segment_last_mark_epoch == before.segment_last_mark_epoch
        &&& self.next_device_id == before.next_device_id
        &&& self.next_keyspace_id == before.next_keyspace_id
        &&& self.next_file_id == before.next_file_id
        &&& self.next_keyspace_root_id == before.next_keyspace_root_id
        &&& self.next_checkpoint_id == before.next_checkpoint_id
        &&& self.next_append_stream_id == before.next_append_stream_id
        &&& self.next_append_ticket_id == before.next_append_ticket_id
        &&& self.next_gc_epoch == before.next_gc_epoch
        &&& self.history_floor == before.history_floor
        &&& self.records_kept(before)
        &&& self.append_streams@.dom() == before.append_streams@.dom()
        &&& forall|id: u128| #[trigger]
            before.append_streams@.contains_key(id) && !stream_is_of(
                before.append_streams@[id],
                keyspace_id,
                file_id,
            ) ==> self.append_streams@[id] == before.append_streams@[id]
        &&& forall|id: u128| #[trigger]
            before.append_publish_tickets@.contains_key(id) && id
                < before.next_append_publish_ticket_id
                ==> self.append_publish_tickets@.contains_key(id) && (
            before.append_publish_tickets@[id].ticket.keyspace_id == keyspace_id
                && before.append_publish_tickets@[id].ticket.file_id == file_id
                || self.append_publish_tickets@[id] == before.append_publish_tickets@[id])
    }

    /// Whether a commit of a file is on record: at the end of the histories of its
    /// keyspace and of the files, and as a commit group.
    pub open spec fn file_commit_recorded(
        &self,
        before: &MetadataInner,
        keyspace_id: KeyspaceId,
        old_head: FileHead,
        new_head: FileHead,
    ) -> bool {
        let group = CommitGroupId(before.next_commit_group_id);
        let roots = before.catalog_of(keyspace_id);
        let index = catalog_index(new_head.file_id, roots.len() as int);
        let count = before.keyspace_heads@[keyspace_id.0].file_count;
        &&& self.file_commits@ == before.file_commits@.push(
            file_commit_of(group, keyspace_id, old_head, new_head),
        )
        &&& self.keyspace_commits@ == before.keyspace_commits@.push(
            KeyspaceCommit {
                commit_seq: new_head.latest_commit,
                commit_group: group,
                time: LogicalTime(new_head.latest_commit.0),
                keyspace_id,
                shard_index: index as u32,
                old_shard: roots[index],
                new_shard: KeyspaceCatalogShardId(before.next_keyspace_catalog_shard_id),
                old_file_count: count,
                new_file_count: count,
            },
        )
        &&& group_added(
            before.commit_groups@,
            self.commit_groups@,
            group,
            new_head.latest_commit,
            keyspace_id,
            file_update_of(old_head, new_head),
        )
    }

    /// Whether the commit that created a file is on record.
    pub open spec fn file_creation_recorded(
        &self,
        before: &MetadataInner,
        keyspace_id: KeyspaceId,
        head: FileHead,
    ) -> bool {
        let group = CommitGroupId(before.next_commit_group_id);
        let roots = before.catalog_of(keyspace_id);
        let index = catalog_index(head.file_id, roots.len() as int);
        let count = before.keyspace_heads@[keyspace_id.0].file_count;
        &&& head.latest_commit.0 == before.next_commit_seq
        &&& self.file_commits@ == before.file_commits@.push(
            FileCommit {
                commit_seq: head.latest_commit,
                commit_group: group,
                time: LogicalTime(head.latest_commit.0),
                keyspace_id,
                file_id: head.file_id,
                old_root: None,
                new_root: head.root,
                old_version: None,
                new_version: head.version,
                old_size: 0,
                new_size: head.size,
            },
        )
        &&& self.keyspace_commits@ == before.keyspace_commits@.push(
            KeyspaceCommit {
                commit_seq: head.latest_commit,
                commit_group: group,
                time: LogicalTime(head.latest_commit.0),
                keyspace_id,
                shard_index: index as u32,
                old_shard: roots[index],
                new_shard: KeyspaceCatalogShardId(before.next_keyspace_catalog_shard_id),
                old_file_count: count,
                new_file_count: (count + 1) as usize,
            },
        )
        &&& group_added(
            before.commit_groups@,
            self.commit_groups@,
            group,
            head.latest_commit,
            keyspace_id,
            RootUpdate::FileCreated {
                file_id: head.file_id,
                new_root: head.root,
                new_size: head.size,
            },
        )
    }

    /// Whether every other file is as it was.
    pub open spec fn other_files_kept(
        &self,
        before: &MetadataInner,
        keyspace_id: KeyspaceId,
        file_id: FileId,
    ) -> bool {
        forall|k: KeyspaceId, f: FileId|
            (k != keyspace_id || f != file_id) && before.has_keyspace(k) ==> #[trigger]
                self.file_head(k, f) == before.file_head(k, f)
    }

    /// Whether a publish of a file cannot get a number that it needs.
    pub open spec fn file_numbers_used_up(&self) -> bool {
        ||| self.next_commit_seq == u64::MAX
        ||| self.next_commit_group_id == u128::MAX
        ||| self.next_keyspace_catalog_shard_id == u128::MAX
    }

    /// Puts a file's new head into the catalog and records the commit.
    #[verifier::rlimit(60)]
    fn put_file(
        &mut self,
        keyspace_id: KeyspaceId,
        file: KeyspaceFile,
        previous: Option<FileHead>,
        update: RootUpdate,
        block_size: Ghost<u64>,
    ) -> (result: Result<CommitSeq, StorageError>)
        requires
            old(self).files_wf(block_size@),
            old(self).has_keyspace(keyspace_id),
            file_wf(
                old(self).nodes(),
                file,
                file.head.file_id.0,
                block_size@,
                old(self).next_file_id,
            ),
            file.head.latest_commit.0 == old(self).next_commit_seq,
        ensures
            final(self).files_wf(block_size@),
            final(self).trees == old(self).trees,
            final(self).same_outside_files(old(self)),
            final(self).next_file_id == old(self).next_file_id,
            final(self).next_keyspace_id == old(self).next_keyspace_id,
            result is Ok <==> !old(self).file_numbers_used_up() && old(
                self,
            ).keyspace_heads@[keyspace_id.0].generation.0 < u64::MAX && (previous is None ==> old(
                self,
            ).keyspace_heads@[keyspace_id.0].file_count < usize::MAX),
            result matches Ok(seq) ==> {
                &&& seq.0 == old(self).next_commit_seq
                &&& final(self).next_commit_seq == seq.0 + 1
                &&& final(self).file_head(keyspace_id, file.head.file_id) == Some(file.head)
                &&& final(self).other_files_kept(old(self), keyspace_id, file.head.file_id)
                &&& final(self).keyspace_heads@.dom() == old(self).keyspace_heads@.dom()
                &&& final(self).keyspace_heads@.remove(keyspace_id.0) == old(
                    self,
                ).keyspace_heads@.remove(keyspace_id.0)
                &&& final(self).keyspace_heads@[keyspace_id.0].latest_commit == seq
                &&& final(self).keyspace_heads@[keyspace_id.0].generation.0 == old(
                    self,
                ).keyspace_heads@[keyspace_id.0].generation.0 + 1
                &&& final(self).keyspace_heads@[keyspace_id.0].file_count == old(
                    self,
                ).keyspace_heads@[keyspace_id.0].file_count + if previous is None {
                    1int
                } else {
                    0int
                }
                &&& final(self).file_commits@ == old(self).file_commits@.push(
                    FileCommit {
                        commit_seq: seq,
                        commit_group: CommitGroupId(old(self).next_commit_group_id),
                        time: LogicalTime(seq.0),
                        keyspace_id,
                        file_id: file.head.file_id,
                        old_root: match previous {
                            Some(head) => Some(head.root),
                            None => None,
                        },
                        new_root: file.head.root,
                        old_version: match previous {
                            Some(head) => Some(head.version),
                            None => None,
                        },
                        new_version: file.head.version,
                        old_size: match previous {
                            Some(head) => head.size,
                            None => 0,
                        },
                        new_size: file.head.size,
                    },
                )
                &&& final(self).keyspace_commits@ == old(self).keyspace_commits@.push(
                    KeyspaceCommit {
                        commit_seq: seq,
                        commit_group: CommitGroupId(old(self).next_commit_group_id),
                        time: LogicalTime(seq.0),
                        keyspace_id,
                        shard_index: catalog_index(
                            file.head.file_id,
                            old(self).catalog_of(keyspace_id).len() as int,
                        ) as u32,
                        old_shard: old(self).catalog_of(keyspace_id)[catalog_index(
                            file.head.file_id,
                            old(self).catalog_of(keyspace_id).len() as int,
                        )],
                        new_shard: KeyspaceCatalogShardId(
                            old(self).next_keyspace_catalog_shard_id,
                        ),
                        old_file_count: old(self).keyspace_heads@[keyspace_id.0].file_count,
                        new_file_count: final(self).keyspace_heads@[keyspace_id.0].file_count,
                    },
                )
                &&& group_added(
                    old(self).commit_groups@,
                    final(self).commit_groups@,
                    CommitGroupId(old(self).next_commit_group_id),
                    seq,
                    keyspace_id,
                    update,
                )
            },
            final(self).catalogs_past_kept(old(self)),
            final(self).next_commit_seq <= old(self).next_commit_seq + 1,
            final(self).next_commit_group_id <= old(self).next_commit_group_id + 1,
            final(self).next_keyspace_catalog_shard_id <= old(self).next_keyspace_catalog_shard_id
                + 1,
            final(self).records_kept(old(self)),
            result matches Err(error) ==> error is Conflict && *final(self) == *old(self),
    {
        let ghost before = *self;
        proof {
            before.lemma_own_catalogs_past();
            before.lemma_own_records();
        }
        let file_id = file.head.file_id;
        let ghost new_file_head = file.head;
        if self.next_commit_seq == u64::MAX {
            return Err(StorageError::conflict("commit sequence overflow"));
        }
        if self.next_commit_group_id == u128::MAX {
            return Err(StorageError::conflict("commit group id overflow"));
        }
        if self.next_keyspace_catalog_shard_id == u128::MAX {
            return Err(StorageError::conflict("keyspace catalog shard id overflow"));
        }
        let head = match self.keyspace_heads.get(keyspace_id.raw()) {
            Some(head) => head,
            None => return Err(StorageError::conflict("keyspace is gone")),
        };
        assert(self.keyspace_heads@.contains_key(keyspace_id.0));
        if head.generation.0 == u64::MAX {
            return Err(StorageError::conflict("keyspace generation overflow"));
        }
        let created = previous.is_none();
        if created && head.file_count == usize::MAX {
            return Err(StorageError::conflict("keyspace file count overflow"));
        }
        let seq = CommitSeq(self.next_commit_seq);
        let group = CommitGroupId(self.next_commit_group_id);
        let new_shard_id = KeyspaceCatalogShardId(self.next_keyspace_catalog_shard_id);
        let mut roots = copy_vec(&head.shard_roots);
        let ghost old_roots = roots@;
        let index = shard_index_of(file_id, roots.len());
        let old_shard_id = roots[index];
        let generation = KeyspaceGeneration(head.generation.0 + 1);
        let old_file_count = head.file_count;
        let new_file_count: usize = if created {
            old_file_count + 1
        } else {
            old_file_count
        };
        let mut files = match self.keyspace_catalog_shards.get(old_shard_id.raw()) {
            Some(shard) => copy_files(&shard.files),
            None => {
                assert(false);
                IdMap::new()
            },
        };
        let ghost old_files = before.keyspace_catalog_shards@[old_shard_id.0].files@;
        let file_commit = FileCommit {
            commit_seq: seq,
            commit_group: group,
            time: LogicalTime(seq.0),
            keyspace_id,
            file_id,
            old_root: match previous {
                Some(head) => Some(head.root),
                None => None,
            },
            new_root: file.head.root,
            old_version: match previous {
                Some(head) => Some(head.version),
                None => None,
            },
            new_version: file.head.version,
            old_size: match previous {
                Some(head) => head.size,
                None => 0,
            },
            new_size: file.head.size,
        };
        files.insert(file_id.raw(), file);
        let ghost new_files = files@;
        let shard = KeyspaceCatalogShard { shard_id: new_shard_id, files };
        roots.set(index, new_shard_id);
        let ghost new_roots = roots@;
        self.keyspace_catalog_shards.insert(new_shard_id.raw(), shard);
        let new_head = KeyspaceHead {
            keyspace_id,
            generation,
            shard_roots: roots,
            file_count: new_file_count,
            latest_commit: seq,
        };
        self.keyspace_heads.insert(keyspace_id.raw(), new_head);
        self.keyspace_commits.push(
            KeyspaceCommit {
                commit_seq: seq,
                commit_group: group,
                time: LogicalTime(seq.0),
                keyspace_id,
                shard_index: index as u32,
                old_shard: old_shard_id,
                new_shard: new_shard_id,
                old_file_count,
                new_file_count,
            },
        );
        self.file_commits.push(file_commit);
        let mut updates: Vec<RootUpdate> = Vec::new();
        updates.push(update);
        self.commit_groups.insert(
            group.raw(),
            CommitGroup {
                commit_group: group,
                commit_seq: seq,
                owner: MappingOwner::NativeKeyspace(keyspace_id),
                updates,
            },
        );
        self.next_commit_seq = self.next_commit_seq + 1;
        self.next_commit_group_id = self.next_commit_group_id + 1;
        self.next_keyspace_catalog_shard_id = self.next_keyspace_catalog_shard_id + 1;
        proof {
            assert(self.commit_groups@.remove(group.0) =~= before.commit_groups@.remove(group.0));
            assert(self.commit_groups@[group.0].updates@ =~= seq![update]);
            lemma_put_file(
                before,
                *self,
                keyspace_id,
                new_file_head,
                old_files,
                new_files,
                index as int,
                new_shard_id,
                block_size@,
            );
            assert(self.keyspace_heads@.dom() =~= before.keyspace_heads@.dom());
            assert(self.keyspace_heads@.remove(keyspace_id.0) =~= before.keyspace_heads@.remove(
                keyspace_id.0,
            ));
            self.lemma_commit_keeps_catalogs_past(&before, self.keyspace_commits@.last());
            lemma_keeps_all_inserted(
                before.file_commits@,
                before.file_commits@.len() as int,
                self.file_commits@.last(),
            );
            lemma_keeps_all_inserted(
                before.keyspace_commits@,
                before.keyspace_commits@.len() as int,
                self.keyspace_commits@.last(),
            );
            assert(self.file_commits@ =~= before.file_commits@.insert(
                before.file_commits@.len() as int,
                self.file_commits@.last(),
            ));
            assert(self.keyspace_commits@ =~= before.keyspace_commits@.insert(
                before.keyspace_commits@.len() as int,
                self.keyspace_commits@.last(),
            ));
        }
        Ok(seq)
    }
}

pub(crate) fn shard_index_of(file_id: FileId, shards: usize) -> (index: usize)
    requires
        shards > 0,
    ensures
        index == catalog_index(file_id, shards as int),
        index < shards,
{
    let index: u128 = file_id.0 % (shards as u128);
    index as usize
}

#[verifier::rlimit(60)]
proof fn lemma_put_file(
    before: MetadataInner,
    after: MetadataInner,
    keyspace_id: KeyspaceId,
    head: FileHead,
    old_files: Map<u128, KeyspaceFile>,
    new_files: Map<u128, KeyspaceFile>,
    index: int,
    new_shard_id: KeyspaceCatalogShardId,
    block_size: u64,
)
    requires
        before.files_wf(block_size),
        before.has_keyspace(keyspace_id),
        after.trees == before.trees,
        after.next_file_id == before.next_file_id,
        after.next_keyspace_id == before.next_keyspace_id,
        after.keyspace_roots == before.keyspace_roots,
        after.next_keyspace_root_id == before.next_keyspace_root_id,
        after.append_publish_tickets == before.append_publish_tickets,
        after.next_append_publish_ticket_id == before.next_append_publish_ticket_id,
        after.next_keyspace_catalog_shard_id == before.next_keyspace_catalog_shard_id + 1,
        new_shard_id.0 == before.next_keyspace_catalog_shard_id,
        after.keyspace_catalog_shards@.dom() == before.keyspace_catalog_shards@.dom().insert(
            new_shard_id.0,
        ),
        forall|id: u128| #[trigger]
            before.keyspace_catalog_shards@.contains_key(id)
                ==> after.keyspace_catalog_shards@[id] == before.keyspace_catalog_shards@[id],
        after.keyspace_catalog_shards@[new_shard_id.0].files@ == new_files,
        index == catalog_index(head.file_id, before.catalog_of(keyspace_id).len() as int),
        old_files == before.keyspace_catalog_shards@[before.catalog_of(
            keyspace_id,
        )[index].0].files@,
        after.keyspace_heads@ == before.keyspace_heads@.insert(
            keyspace_id.0,
            after.keyspace_heads@[keyspace_id.0],
        ),
        after.keyspace_heads@[keyspace_id.0].keyspace_id == keyspace_id,
        after.catalog_of(keyspace_id) == before.catalog_of(keyspace_id).update(
            index,
            new_shard_id,
        ),
        new_files.dom() == old_files.dom().insert(head.file_id.0),
        new_files[head.file_id.0].head == head,
        forall|id: u128| #[trigger]
            old_files.contains_key(id) && id != head.file_id.0 ==> new_files[id].head
                == old_files[id].head,
        file_wf(
            before.nodes(),
            new_files[head.file_id.0],
            head.file_id.0,
            block_size,
            before.next_file_id,
        ),
    ensures
        after.files_wf(block_size),
        after.file_head(keyspace_id, head.file_id) == Some(head),
        after.other_files_kept(&before, keyspace_id, head.file_id),
{
    let nodes = before.nodes();
    let old_shards = before.keyspace_catalog_shards@;
    let new_shards = after.keyspace_catalog_shards@;
    let roots = before.catalog_of(keyspace_id);
    let new_roots = after.catalog_of(keyspace_id);
    let n = roots.len() as int;
    assert(before.keyspace_heads@.contains_key(keyspace_id.0));
    assert(old_shards.contains_key(roots[index].0));
    assert(!old_shards.contains_key(new_shard_id.0));
    assert forall|id: u128| #[trigger] new_shards.contains_key(id) implies id
        < after.next_keyspace_catalog_shard_id && catalog_shard_wf(
        nodes,
        new_shards[id],
        block_size,
        before.next_file_id,
    ) by {
        if id == new_shard_id.0 {
            assert(catalog_shard_wf(
                nodes,
                old_shards[roots[index].0],
                block_size,
                before.next_file_id,
            ));
            assert forall|f: u128| #[trigger] new_files.contains_key(f) implies file_wf(
                nodes,
                new_files[f],
                f,
                block_size,
                before.next_file_id,
            ) by {
                if f != head.file_id.0 {
                    assert(old_files.contains_key(f));
                    assert(file_wf(nodes, old_files[f], f, block_size, before.next_file_id));
                }
            }
        } else {
            assert(old_shards.contains_key(id));
        }
    }
    assert forall|k: u128| #[trigger] after.keyspace_heads@.contains_key(k) implies k
        < after.next_keyspace_id && after.keyspace_heads@[k].keyspace_id.0 == k && catalog_roots_wf(
        new_shards,
        after.keyspace_heads@[k].shard_roots@,
    ) by {
        assert(before.keyspace_heads@.contains_key(k));
        let held = before.keyspace_heads@[k].shard_roots@;
        assert(catalog_roots_wf(old_shards, held));
        assert forall|i: int| 0 <= i < after.keyspace_heads@[k].shard_roots@.len() implies
            new_shards.contains_key((#[trigger] after.keyspace_heads@[k].shard_roots@[i]).0) by {
            if k == keyspace_id.0 {
                if i != index {
                    assert(new_roots[i] == roots[i]);
                    assert(old_shards.contains_key(roots[i].0));
                }
            } else {
                assert(old_shards.contains_key(held[i].0));
            }
        }
    }
    assert forall|r: u128| #[trigger] after.keyspace_roots@.contains_key(r) implies r
        < after.next_keyspace_root_id && catalog_roots_wf(
        new_shards,
        after.keyspace_roots@[r].shard_roots@,
    ) by {
        let held = before.keyspace_roots@[r].shard_roots@;
        assert(catalog_roots_wf(old_shards, held));
        assert forall|i: int| 0 <= i < held.len() implies new_shards.contains_key(
            (#[trigger] held[i]).0,
        ) by {
            assert(old_shards.contains_key(held[i].0));
        }
    }
    assert(new_roots[index] == new_shard_id);
    assert(new_shards.contains_key(new_shard_id.0));
    assert(new_files.contains_key(head.file_id.0));
    assert forall|k: KeyspaceId, f: FileId|
        (k != keyspace_id || f != head.file_id) && before.has_keyspace(k) implies #[trigger]
        after.file_head(k, f) == before.file_head(k, f) by {
        let held = before.catalog_of(k);
        assert(before.keyspace_heads@.contains_key(k.0));
        assert(catalog_roots_wf(old_shards, held));
        let at = catalog_index(f, held.len() as int);
        assert(0 <= at < held.len());
        assert(old_shards.contains_key(held[at].0));
        if k == keyspace_id {
            if at == index {
                assert(new_roots[at] == new_shard_id);
                assert(f.0 != head.file_id.0);
                assert(new_files.contains_key(f.0) == old_files.contains_key(f.0));
            } else {
                assert(new_roots[at] == roots[at]);
            }
        } else {
            assert(k.0 != keyspace_id.0);
            assert(after.keyspace_heads@[k.0] == before.keyspace_heads@[k.0]);
        }
    }
}

impl MetadataInner {
    /// Whether a fence lets a publish of a file through.
    pub open spec fn fence_open(
        &self,
        keyspace_id: KeyspaceId,
        file_id: FileId,
        head: FileHead,
        fence: FileFence,
    ) -> bool {
        match fence {
            FileFence::Version(version) => head.version == version,
            FileFence::Stream { stream_id, writer_epoch } => {
                &&& self.append_streams@.contains_key(stream_id.0)
                &&& self.append_streams@[stream_id.0].state.writer_epoch == writer_epoch
                &&& self.append_streams@[stream_id.0].state.status == AppendStreamStatus::Active
                &&& self.append_streams@[stream_id.0].state.keyspace_id == keyspace_id
                &&& self.append_streams@[stream_id.0].state.file_id == file_id
            },
        }
    }

    fn is_fence_open(
        &self,
        keyspace_id: KeyspaceId,
        file_id: FileId,
        head: &FileHead,
        fence: FileFence,
    ) -> (open: bool)
        ensures
            open == self.fence_open(keyspace_id, file_id, *head, fence),
    {
        match fence {
            FileFence::Version(version) => head.version.0 == version.0,
            FileFence::Stream { stream_id, writer_epoch } => match self.append_streams.get(
                stream_id.raw(),
            ) {
                Some(stream) => {
                    let active = match stream.state.status {
                        AppendStreamStatus::Active => true,
                        _ => false,
                    };
                    active && stream.state.writer_epoch.0 == writer_epoch.0
                        && stream.state.keyspace_id.0 == keyspace_id.0 && stream.state.file_id.0
                        == file_id.0
                },
                None => false,
            },
        }
    }

    /// The head that a publish gives a file.
    pub open spec fn published_head(
        &self,
        head: FileHead,
        new_root: MetadataNodeId,
        new_size: u64,
    ) -> FileHead {
        FileHead {
            file_id: head.file_id,
            version: FileVersion((head.version.0 + 1) as u64),
            root: new_root,
            size: new_size,
            latest_commit: CommitSeq(self.next_commit_seq),
        }
    }

    /// Gives a file a new tree and size, if nothing has changed it since.
    #[verifier::rlimit(60)]
    pub fn publish_file_commit(
        &mut self,
        keyspace_id: KeyspaceId,
        file_id: FileId,
        fence: FileFence,
        old_root: MetadataNodeId,
        new_root: MetadataNodeId,
        new_size: u64,
        block_size: u64,
    ) -> (result: Result<FileHead, StorageError>)
        requires
            old(self).devices_wf(block_size),
            old(self).files_wf(block_size),
            old(self).nodes().contains_key(old_root.0),
            old(self).nodes().contains_key(new_root.0),
            old(self).nodes()[new_root.0].covered_range == old(
                self,
            ).nodes()[old_root.0].covered_range,
        ensures
            final(self).devices_wf(block_size),
            final(self).files_wf(block_size),
            final(self).trees == old(self).trees,
            final(self).same_outside_files(old(self)),
            final(self).next_file_id == old(self).next_file_id,
            final(self).next_keyspace_id == old(self).next_keyspace_id,
            final(self).keyspace_heads@.dom() == old(self).keyspace_heads@.dom(),
            result matches Ok(head) ==> {
                &&& old(self).has_file(keyspace_id, file_id)
                &&& old(self).fence_open(
                    keyspace_id,
                    file_id,
                    old(self).file_head(keyspace_id, file_id)->0,
                    fence,
                )
                &&& old(self).file_head(keyspace_id, file_id)->0.root == old_root
                &&& new_size <= old(self).nodes()[new_root.0].covered_range.end() * block_size
                &&& head == old(self).published_head(
                    old(self).file_head(keyspace_id, file_id)->0,
                    new_root,
                    new_size,
                )
                &&& head.version.0 == old(self).file_head(keyspace_id, file_id)->0.version.0 + 1
                &&& final(self).file_head(keyspace_id, file_id) == Some(head)
                &&& final(self).other_files_kept(old(self), keyspace_id, file_id)
                &&& final(self).next_commit_seq == old(self).next_commit_seq + 1
                &&& final(self).file_commit_recorded(
                    old(self),
                    keyspace_id,
                    old(self).file_head(keyspace_id, file_id)->0,
                    head,
                )
            },
            old(self).has_file(keyspace_id, file_id) && old(self).fence_open(
                keyspace_id,
                file_id,
                old(self).file_head(keyspace_id, file_id)->0,
                fence,
            ) && old(self).file_head(keyspace_id, file_id)->0.root == old_root && new_size <= old(
                self,
            ).nodes()[new_root.0].covered_range.end() * block_size ==> result is Ok || old(
                self,
            ).file_numbers_used_up() || old(self).keyspace_heads@[keyspace_id.0].generation.0
                == u64::MAX || old(self).file_head(keyspace_id, file_id)->0.version.0 == u64::MAX,
            final(self).catalogs_past_kept(old(self)),
            final(self).next_commit_seq <= old(self).next_commit_seq + 1,
            final(self).next_commit_group_id <= old(self).next_commit_group_id + 1,
            final(self).next_keyspace_catalog_shard_id <= old(self).next_keyspace_catalog_shard_id
                + 1,
            final(self).records_kept(old(self)),
            old(self).has_file(keyspace_id, file_id) && !old(self).fence_open(
                keyspace_id,
                file_id,
                old(self).file_head(keyspace_id, file_id)->0,
                fence,
            ) ==> (result matches Err(error) && error is Conflict),
            result matches Err(error) ==> *final(self) == *old(self),
            !old(self).has_file(keyspace_id, file_id) ==> (result matches Err(error)
                && error is NotFound),
    {
        let ghost before = *self;
        proof {
            before.lemma_own_catalogs_past();
            before.lemma_own_records();
        }
        let head = match self.get_file_head(keyspace_id, file_id) {
            Ok(head) => head,
            Err(error) => return Err(error),
        };
        proof {
            self.lemma_file_wf(keyspace_id, file_id, block_size);
        }
        if !self.is_fence_open(keyspace_id, file_id, &head, fence) {
            return match fence {
                FileFence::Version(_) => Err(StorageError::conflict("stale native file version")),
                FileFence::Stream { .. } => Err(StorageError::conflict("stale append stream")),
            };
        }
        if head.root.0 != old_root.0 {
            return Err(StorageError::conflict("stale file root"));
        }
        let covered = match self.trees.nodes.get(new_root.raw()) {
            Some(node) => node.covered_range,
            None => return Err(StorageError::not_found("metadata_node", new_root.raw())),
        };
        proof {
            assert(crate::tree::node_wf(self.nodes(), new_root.0, block_size));
            assert(covered.end() <= u64::MAX) by (nonlinear_arith)
                requires
                    covered.end() * block_size <= u64::MAX,
                    block_size >= 1,
                    covered.end() >= 0,
            ;
        }
        let limit: u64 = (covered.start.0 + covered.blocks.0) * block_size;
        if new_size > limit {
            return Err(StorageError::invalid_argument("file size exceeds file root coverage"));
        }
        if head.version.0 == u64::MAX {
            return Err(StorageError::conflict("file version overflow"));
        }
        let new_head = FileHead {
            file_id: head.file_id,
            version: FileVersion(head.version.0 + 1),
            root: new_root,
            size: new_size,
            latest_commit: CommitSeq(self.next_commit_seq),
        };
        let keyspace_head = match self.keyspace_heads.get(keyspace_id.raw()) {
            Some(keyspace_head) => keyspace_head,
            None => return Err(StorageError::not_found("keyspace", keyspace_id.raw())),
        };
        assert(self.keyspace_heads@.contains_key(keyspace_id.0));
        let index = shard_index_of(file_id, keyspace_head.shard_roots.len());
        let shard_id = keyspace_head.shard_roots[index];
        let name = match self.keyspace_catalog_shards.get(shard_id.raw()) {
            Some(shard) => match shard.files.get(file_id.raw()) {
                Some(file) => copy_name(&file.name),
                None => None,
            },
            None => None,
        };
        let file = KeyspaceFile { name, head: new_head };
        let update = RootUpdate::FileRoot { file_id, old_root, new_root, new_size };
        proof {
            assert(self.keyspace_catalog_shards@.contains_key(shard_id.0));
            assert(catalog_shard_wf(
                self.nodes(),
                self.keyspace_catalog_shards@[shard_id.0],
                block_size,
                self.next_file_id,
            ));
            assert(file_wf(self.nodes(), file, file_id.0, block_size, self.next_file_id)) by {
                let held = self.keyspace_catalog_shards@[shard_id.0].files@;
                assert(held.contains_key(file_id.0));
                assert(file_wf(
                    self.nodes(),
                    held[file_id.0],
                    file_id.0,
                    block_size,
                    self.next_file_id,
                ));
            }
        }
        match self.put_file(keyspace_id, file, Some(head), update, Ghost(block_size)) {
            Ok(_) => Ok(new_head),
            Err(error) => Err(error),
        }
    }

    /// Creates an empty keyspace.
    #[verifier::rlimit(60)]
    pub fn create_keyspace(&mut self, config: LocalStoreConfig) -> (result: Result<
        KeyspaceId,
        StorageError,
    >)
        requires
            config.valid(),
            old(self).devices_wf(config.block_size as u64),
            old(self).files_wf(config.block_size as u64),
        ensures
            final(self).devices_wf(config.block_size as u64),
            final(self).files_wf(config.block_size as u64),
            final(self).trees == old(self).trees,
            final(self).same_outside_files(old(self)),
            final(self).next_file_id == old(self).next_file_id,
            final(self).next_commit_seq == old(self).next_commit_seq,
            result matches Ok(keyspace_id) ==> {
                &&& keyspace_id.0 == old(self).next_keyspace_id
                &&& !old(self).has_keyspace(keyspace_id)
                &&& final(self).has_keyspace(keyspace_id)
                &&& final(self).next_keyspace_id == keyspace_id.0 + 1
                &&& final(self).keyspace_heads@.remove(keyspace_id.0) == old(self).keyspace_heads@
                &&& final(self).keyspace_heads@[keyspace_id.0].file_count == 0
                &&& final(self).keyspace_heads@[keyspace_id.0].latest_commit == CommitSeq(0)
                &&& final(self).keyspace_heads@[keyspace_id.0].generation == KeyspaceGeneration(1)
                &&& forall|f: FileId| !(#[trigger] final(self).has_file(keyspace_id, f))
                &&& forall|k: KeyspaceId, f: FileId|
                    old(self).has_keyspace(k) ==> #[trigger] final(self).file_head(k, f) == old(
                        self,
                    ).file_head(k, f)
            },
            result is Err ==> config.shard_count > u32::MAX || old(self).next_keyspace_id
                == u128::MAX || old(self).next_keyspace_catalog_shard_id + config.shard_count
                >= u128::MAX,
            final(self).next_keyspace_id <= old(self).next_keyspace_id + 1,
            final(self).next_keyspace_catalog_shard_id <= old(self).next_keyspace_catalog_shard_id
                + config.shard_count,
            final(self).next_commit_group_id == old(self).next_commit_group_id,
            final(self).records_kept(old(self)),
            result is Err ==> final(self).keyspace_heads == old(self).keyspace_heads,
    {
        let ghost before = *self;
        proof {
            before.lemma_own_records();
        }
        let ghost bs = config.block_size as u64;
        if config.shard_count > u32::MAX as usize {
            return Err(StorageError::invalid_argument("keyspace shard index overflows u32"));
        }
        if self.next_keyspace_id == u128::MAX {
            return Err(StorageError::conflict("keyspace id overflow"));
        }
        let mut roots: Vec<KeyspaceCatalogShardId> = Vec::new();
        let mut i: usize = 0;
        while i < config.shard_count
            invariant
                i <= config.shard_count,
                bs == config.block_size as u64,
                before == *old(self),
                before.devices_wf(bs),
                before.files_wf(bs),
                before.records_kept(&before),
                roots@.len() == i,
                self.next_keyspace_catalog_shard_id == before.next_keyspace_catalog_shard_id + i,
                *self == (MetadataInner {
                    keyspace_catalog_shards: self.keyspace_catalog_shards,
                    next_keyspace_catalog_shard_id: self.next_keyspace_catalog_shard_id,
                    ..before
                }),
                catalog_wf(
                    before.nodes(),
                    self.keyspace_catalog_shards@,
                    bs,
                    before.next_file_id,
                    self.next_keyspace_catalog_shard_id,
                ),
                forall|id: u128| #[trigger]
                    before.keyspace_catalog_shards@.contains_key(id)
                        ==> self.keyspace_catalog_shards@.contains_key(id)
                        && self.keyspace_catalog_shards@[id] == before.keyspace_catalog_shards@[id],
                forall|k: int|
                    0 <= k < i ==> self.keyspace_catalog_shards@.contains_key(
                        (#[trigger] roots@[k]).0,
                    ) && self.keyspace_catalog_shards@[roots@[k].0].files@ == Map::<
                        u128,
                        KeyspaceFile,
                    >::empty(),
            decreases config.shard_count - i,
        {
            if self.next_keyspace_catalog_shard_id == u128::MAX {
                proof {
                    lemma_more_shards(before, *self, bs);
                }
                return Err(StorageError::conflict("keyspace catalog shard id overflow"));
            }
            let ghost shards_then = self.keyspace_catalog_shards@;
            let shard_id = KeyspaceCatalogShardId(self.next_keyspace_catalog_shard_id);
            assert(!shards_then.contains_key(shard_id.0));
            self.keyspace_catalog_shards.insert(
                shard_id.raw(),
                KeyspaceCatalogShard { shard_id, files: IdMap::new() },
            );
            self.next_keyspace_catalog_shard_id = self.next_keyspace_catalog_shard_id + 1;
            roots.push(shard_id);
            i = i + 1;
        }
        let keyspace_id = KeyspaceId(self.next_keyspace_id);
        self.next_keyspace_id = self.next_keyspace_id + 1;
        let ghost middle = *self;
        let head = KeyspaceHead {
            keyspace_id,
            generation: KeyspaceGeneration(1),
            shard_roots: roots,
            file_count: 0,
            latest_commit: CommitSeq(0),
        };
        self.keyspace_heads.insert(keyspace_id.raw(), head);
        proof {
            lemma_more_shards(before, middle, bs);
            assert(!before.keyspace_heads@.contains_key(keyspace_id.0));
            assert(self.keyspace_heads@.remove(keyspace_id.0) =~= before.keyspace_heads@);
            assert(catalog_roots_wf(self.keyspace_catalog_shards@, roots@));
            assert forall|f: FileId| !(#[trigger] self.has_file(keyspace_id, f)) by {
                let at = catalog_index(f, roots@.len() as int);
                assert(0 <= at < roots@.len());
                assert(self.keyspace_catalog_shards@.contains_key(roots@[at].0));
            }
            assert forall|k: KeyspaceId, f: FileId| before.has_keyspace(k) implies #[trigger]
                self.file_head(k, f) == before.file_head(k, f) by {
                assert(before.keyspace_heads@.contains_key(k.0));
                assert(middle.file_head(k, f) == before.file_head(k, f));
                assert(k.0 != keyspace_id.0);
            }
            assert forall|k: u128| #[trigger] self.keyspace_heads@.contains_key(k) implies k
                < self.next_keyspace_id && self.keyspace_heads@[k].keyspace_id.0 == k
                && catalog_roots_wf(
                self.keyspace_catalog_shards@,
                self.keyspace_heads@[k].shard_roots@,
            ) by {
                if k != keyspace_id.0 {
                    assert(middle.keyspace_heads@.contains_key(k));
                }
            }
        }
        Ok(keyspace_id)
    }

    /// Creates an empty file.
    #[verifier::rlimit(60)]
    pub fn create_file(
        &mut self,
        config: LocalStoreConfig,
        keyspace_id: KeyspaceId,
        name: Option<String>,
    ) -> (result: Result<FileId, StorageError>)
        requires
            config.valid(),
            old(self).devices_wf(config.block_size as u64),
            old(self).files_wf(config.block_size as u64),
        ensures
            final(self).devices_wf(config.block_size as u64),
            final(self).files_wf(config.block_size as u64),
            keeps_nodes(old(self).nodes(), final(self).nodes()),
            final(self).same_outside_files(old(self)),
            final(self).next_keyspace_id == old(self).next_keyspace_id,
            final(self).keyspace_heads@.dom() == old(self).keyspace_heads@.dom(),
            forall|id: u128| #[trigger]
                final(self).nodes().contains_key(id) && !old(self).nodes().contains_key(id)
                    ==> holds_no_entries(final(self).nodes()[id]),
            result matches Ok(file_id) ==> {
                &&& old(self).has_keyspace(keyspace_id)
                &&& !old(self).has_file(keyspace_id, file_id)
                &&& final(self).has_file(keyspace_id, file_id)
                &&& final(self).file_head(keyspace_id, file_id)->0.size == 0
                &&& final(self).file_head(keyspace_id, file_id)->0.version == FileVersion(1)
                &&& is_empty_tree(
                    final(self).nodes(),
                    final(self).file_head(keyspace_id, file_id)->0.root.0,
                    BlockRange {
                        start: BlockIndex(0),
                        blocks: BlockCount(config.file_root_blocks),
                    },
                    config.block_size as u64,
                )
                &&& final(self).other_files_kept(old(self), keyspace_id, file_id)
                &&& final(self).next_file_id == file_id.0 + 1
                &&& file_id.0 == old(self).next_file_id
            },
            result is Err ==> !old(self).has_keyspace(keyspace_id) || config.file_root_blocks
                * config.block_size > u64::MAX || old(self).next_file_id == u128::MAX
                || final(self).trees.next_metadata_node_id == u128::MAX || old(
                self,
            ).file_numbers_used_up() || old(self).keyspace_heads@[keyspace_id.0].generation.0
                == u64::MAX || old(self).keyspace_heads@[keyspace_id.0].file_count == usize::MAX,
            final(self).trees.spare() == old(self).trees.spare(),
            final(self).next_commit_seq <= old(self).next_commit_seq + 1,
            final(self).next_commit_group_id <= old(self).next_commit_group_id + 1,
            final(self).next_file_id <= old(self).next_file_id + 1,
            final(self).next_keyspace_catalog_shard_id <= old(self).next_keyspace_catalog_shard_id
                + 1,
            final(self).records_kept(old(self)),
            result is Err ==> final(self).keyspace_heads == old(self).keyspace_heads,
            result is Ok ==> final(self).next_commit_seq == old(self).next_commit_seq + 1,
            result is Err ==> forall|k: KeyspaceId, f: FileId| #[trigger]
                final(self).file_head(k, f) == old(self).file_head(k, f),
            !old(self).has_keyspace(keyspace_id) ==> result == Err::<FileId, StorageError>(
                StorageError::NotFound { kind: "keyspace", id: keyspace_id.0 },
            ),
            result matches Ok(file_id) ==> final(self).file_creation_recorded(
                old(self),
                keyspace_id,
                final(self).file_head(keyspace_id, file_id)->0,
            ),
    {
        let ghost before = *self;
        proof {
            before.lemma_own_records();
        }
        let bs: u64 = config.block_size as u64;
        if !self.keyspace_heads.contains_key(keyspace_id.raw()) {
            return Err(StorageError::not_found("keyspace", keyspace_id.raw()));
        }
        match config.file_root_blocks.checked_mul(bs) {
            Some(_) => {},
            None => return Err(StorageError::invalid_argument("file root byte length overflows")),
        }
        if self.next_file_id == u128::MAX {
            return Err(StorageError::conflict("file id overflow"));
        }
        let range = BlockRange { start: BlockIndex(0), blocks: BlockCount(config.file_root_blocks) };
        let built = build_empty_tree(
            &mut self.trees,
            range,
            config.metadata_leaf_blocks,
            config.metadata_fanout as u64,
            bs,
        );
        proof {
            lemma_devices_kept(
                before.nodes(),
                self.nodes(),
                before.device_specs@,
                before.device_heads@,
                before.deleted_device_heads@,
                before.shard_commits@,
                before.checkpoints@,
                bs,
                before.next_device_id,
            );
            lemma_catalog_kept(
                before.nodes(),
                self.nodes(),
                before.keyspace_catalog_shards@,
                bs,
                before.next_file_id,
                before.next_keyspace_catalog_shard_id,
            );
        }
        let root = match built {
            Ok(root) => root,
            Err(error) => return Err(error),
        };
        let file_id = FileId(self.next_file_id);
        self.next_file_id = self.next_file_id + 1;
        let ghost middle = *self;
        proof {
            lemma_more_files(before, middle, bs);
            assert(!before.has_file(keyspace_id, file_id)) by {
                if before.has_file(keyspace_id, file_id) {
                    lemma_file_id_known(before, keyspace_id, file_id, bs);
                }
            }
        }
        let head = FileHead {
            file_id,
            version: FileVersion(1),
            root,
            size: 0,
            latest_commit: CommitSeq(self.next_commit_seq),
        };
        let update = RootUpdate::FileCreated { file_id, new_root: root, new_size: 0 };
        proof {
            assert(self.nodes()[root.0].covered_range.end() * bs >= 0) by (nonlinear_arith)
                requires
                    self.nodes()[root.0].covered_range.end() >= 0,
                    bs >= 0,
            ;
        }
        match self.put_file(
            keyspace_id,
            KeyspaceFile { name, head },
            None,
            update,
            Ghost(bs),
        ) {
            Ok(_) => {
                proof {
                    assert forall|k: KeyspaceId, f: FileId|
                        (k != keyspace_id || f != file_id) && before.has_keyspace(
                            k,
                        ) implies #[trigger] self.file_head(k, f) == before.file_head(k, f) by {
                        assert(middle.has_keyspace(k));
                        assert(middle.file_head(k, f) == before.file_head(k, f));
                        assert(self.file_head(k, f) == middle.file_head(k, f));
                    }
                }
                Ok(file_id)
            },
            Err(error) => Err(error),
        }
    }

    /// What a keyspace is and how far it has come.
    pub fn keyspace_info(&self, keyspace_id: KeyspaceId) -> (result: Result<
        KeyspaceInfo,
        StorageError,
    >)
        ensures
            result is Ok <==> self.has_keyspace(keyspace_id),
            result matches Ok(info) ==> info == (KeyspaceInfo {
                keyspace_id,
                generation: self.keyspace_heads@[keyspace_id.0].generation,
                latest_commit: self.keyspace_heads@[keyspace_id.0].latest_commit,
                file_count: self.keyspace_heads@[keyspace_id.0].file_count,
            }),
            result matches Err(error) ==> error == (StorageError::NotFound {
                kind: "keyspace",
                id: keyspace_id.0,
            }),
    {
        match self.keyspace_heads.get(keyspace_id.raw()) {
            Some(head) => Ok(
                KeyspaceInfo {
                    keyspace_id,
                    generation: head.generation,
                    latest_commit: head.latest_commit,
                    file_count: head.file_count,
                },
            ),
            None => Err(StorageError::not_found("keyspace", keyspace_id.raw())),
        }
    }
}

/// A file's number was given out.
proof fn lemma_file_id_known(
    metadata: MetadataInner,
    keyspace_id: KeyspaceId,
    file_id: FileId,
    block_size: u64,
)
    requires
        metadata.files_wf(block_size),
        metadata.has_file(keyspace_id, file_id),
    ensures
        file_id.0 < metadata.next_file_id,
{
    let roots = metadata.catalog_of(keyspace_id);
    assert(metadata.keyspace_heads@.contains_key(keyspace_id.0));
    let shard = roots[catalog_index(file_id, roots.len() as int)].0;
    assert(metadata.keyspace_catalog_shards@.contains_key(shard));
    assert(catalog_shard_wf(
        metadata.nodes(),
        metadata.keyspace_catalog_shards@[shard],
        block_size,
        metadata.next_file_id,
    ));
    assert(file_wf(
        metadata.nodes(),
        metadata.keyspace_catalog_shards@[shard].files@[file_id.0],
        file_id.0,
        block_size,
        metadata.next_file_id,
    ));
}

/// More file numbers leave the catalog well-formed.
proof fn lemma_more_files(before: MetadataInner, after: MetadataInner, block_size: u64)
    requires
        before.files_wf(block_size),
        keeps_nodes(before.nodes(), after.nodes()),
        after.next_file_id >= before.next_file_id,
        after == (MetadataInner {
            trees: after.trees,
            next_file_id: after.next_file_id,
            ..before
        }),
    ensures
        after.files_wf(block_size),
{
    let shards = before.keyspace_catalog_shards@;
    assert forall|id: u128| #[trigger] shards.contains_key(id) implies id
        < after.next_keyspace_catalog_shard_id && catalog_shard_wf(
        after.nodes(),
        shards[id],
        block_size,
        after.next_file_id,
    ) by {
        assert forall|f: u128| #[trigger] shards[id].files@.contains_key(f) implies file_wf(
            after.nodes(),
            shards[id].files@[f],
            f,
            block_size,
            after.next_file_id,
        ) by {
            assert(file_wf(
                before.nodes(),
                shards[id].files@[f],
                f,
                block_size,
                before.next_file_id,
            ));
            assert(before.nodes().contains_key(shards[id].files@[f].head.root.0));
        }
    }
}

/// More catalog shards leave every file as it is.
pub proof fn lemma_more_shards(before: MetadataInner, after: MetadataInner, block_size: u64)
    requires
        before.files_wf(block_size),
        after.next_keyspace_catalog_shard_id >= before.next_keyspace_catalog_shard_id,
        after.next_keyspace_id >= before.next_keyspace_id,
        after == (MetadataInner {
            keyspace_catalog_shards: after.keyspace_catalog_shards,
            next_keyspace_catalog_shard_id: after.next_keyspace_catalog_shard_id,
            next_keyspace_id: after.next_keyspace_id,
            ..before
        }),
        catalog_wf(
            before.nodes(),
            after.keyspace_catalog_shards@,
            block_size,
            before.next_file_id,
            after.next_keyspace_catalog_shard_id,
        ),
        forall|id: u128| #[trigger]
            before.keyspace_catalog_shards@.contains_key(id)
                ==> after.keyspace_catalog_shards@.contains_key(id)
                && after.keyspace_catalog_shards@[id] == before.keyspace_catalog_shards@[id],
    ensures
        after.files_wf(block_size),
        forall|k: KeyspaceId, f: FileId|
            before.has_keyspace(k) ==> #[trigger] after.file_head(k, f) == before.file_head(k, f),
{
    assert forall|k: u128| #[trigger] after.keyspace_heads@.contains_key(k) implies k
        < after.next_keyspace_id && after.keyspace_heads@[k].keyspace_id.0 == k && catalog_roots_wf(
        after.keyspace_catalog_shards@,
        after.keyspace_heads@[k].shard_roots@,
    ) by {
        let held = before.keyspace_heads@[k].shard_roots@;
        assert(catalog_roots_wf(before.keyspace_catalog_shards@, held));
        assert forall|i: int| 0 <= i < held.len() implies
            after.keyspace_catalog_shards@.contains_key((#[trigger] held[i]).0) by {
            assert(before.keyspace_catalog_shards@.contains_key(held[i].0));
        }
    }
    assert forall|r: u128| #[trigger] after.keyspace_roots@.contains_key(r) implies r
        < after.next_keyspace_root_id && catalog_roots_wf(
        after.keyspace_catalog_shards@,
        after.keyspace_roots@[r].shard_roots@,
    ) by {
        let held = before.keyspace_roots@[r].shard_roots@;
        assert(catalog_roots_wf(before.keyspace_catalog_shards@, held));
        assert forall|i: int| 0 <= i < held.len() implies
            after.keyspace_catalog_shards@.contains_key((#[trigger] held[i]).0) by {
            assert(before.keyspace_catalog_shards@.contains_key(held[i].0));
        }
    }
    assert forall|k: KeyspaceId, f: FileId| before.has_keyspace(k) implies #[trigger]
        after.file_head(k, f) == before.file_head(k, f) by {
        let held = before.catalog_of(k);
        assert(before.keyspace_heads@.contains_key(k.0));
        assert(catalog_roots_wf(before.keyspace_catalog_shards@, held));
        let at = catalog_index(f, held.len() as int);
        assert(before.keyspace_catalog_shards@.contains_key(held[at].0));
    }
}

} // verus!
