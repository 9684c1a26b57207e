//! Publishes that are prepared first and applied once they are durable.
use vstd::prelude::*;

use crate::append_publish::tree_with_runs;
use crate::block_api::{ByteRange, WriteDurability};
use crate::coordinator::LocalCoordinator;
use crate::error::StorageError;
use crate::export_cursor::DurableExportCursor;
use crate::file_read::tree_byte;
use crate::id::{
    AppendPublishTicketId, AppendStreamId, CommitGroupId, CommitSeq, FileId, FileVersion,
    KeyspaceCatalogShardId, KeyspaceGeneration, KeyspaceId, LogicalTime, MetadataNodeId,
    WriterEpoch,
};
use crate::idmap::{IdMap, is_walk};
use crate::leaf::{extent_at, extents_wf};
use crate::metadata::{
    AppendPublishInFlight, KeyspaceCatalogShard, MetadataInner, catalog_roots_wf, catalog_shard_wf,
    file_wf,
};
use crate::metadata_files::{
    catalog_head, catalog_index, copy_files, copy_name, file_commit_of, shard_index_of,
};
use crate::metadata_records::{
    AppendStreamRunRecord, FileCommit, FileHead, KeyspaceCommit, KeyspaceFile, KeyspaceHead,
    RunBackedFileExtent,
};
use crate::metadata_streams::{
    extents_of, lemma_record_extents, record_extent, record_extents, record_up_to, records_byte,
    token_open,
};
use crate::native_api::{AppendPublishCommit, AppendPublishTicket, AppendStream};
use crate::read_plan::RunLogMap;
use crate::tree::copy_vec;

verus! {

/// Whether a catalog shard is another one with one file's head replaced.
pub open spec fn staged_shard(
    shards: Map<u128, KeyspaceCatalogShard>,
    old_shard: KeyspaceCatalogShardId,
    new_shard: KeyspaceCatalogShardId,
    head: FileHead,
) -> bool {
    let old_files = shards[old_shard.0].files@;
    let new_files = shards[new_shard.0].files@;
    &&& shards.contains_key(old_shard.0)
    &&& shards.contains_key(new_shard.0)
    &&& new_files.dom() == old_files.dom().insert(head.file_id.0)
    &&& new_files[head.file_id.0].head == head
    &&& forall|id: u128| #[trigger]
        old_files.contains_key(id) && id != head.file_id.0 ==> new_files[id].head
            == old_files[id].head
}

/// Whether nothing was taken out of the catalog.
pub open spec fn keeps_shards(
    before: Map<u128, KeyspaceCatalogShard>,
    after: Map<u128, KeyspaceCatalogShard>,
) -> bool {
    forall|id: u128| #[trigger]
        before.contains_key(id) ==> after.contains_key(id) && after[id] == before[id]
}

impl MetadataInner {
    /// The head that a catalog has for a file.
    pub(crate) fn catalog_lookup(&self, roots: &Vec<KeyspaceCatalogShardId>, file_id: FileId) -> (head: Option<
        FileHead,
    >)
        requires
            catalog_roots_wf(self.keyspace_catalog_shards@, roots@),
        ensures
            head == catalog_head(self.keyspace_catalog_shards@, roots@, file_id),
    {
        let index = shard_index_of(file_id, roots.len());
        let shard_id = roots[index];
        assert(self.keyspace_catalog_shards@.contains_key(shard_id.0));
        match self.keyspace_catalog_shards.get(shard_id.raw()) {
            Some(shard) => match shard.files.get(file_id.raw()) {
                Some(file) => Some(file.head),
                None => None,
            },
            None => None,
        }
    }

    /// Adds a catalog shard with a file's new head; no keyspace uses it yet.
    #[verifier::rlimit(60)]
    pub(crate) fn stage_file(
        &mut self,
        roots: &Vec<KeyspaceCatalogShardId>,
        head: FileHead,
        block_size: Ghost<u64>,
    ) -> (result: Result<(usize, KeyspaceCatalogShardId, KeyspaceCatalogShardId), StorageError>)
        requires
            old(self).files_wf(block_size@),
            catalog_roots_wf(old(self).keyspace_catalog_shards@, roots@),
            catalog_head(old(self).keyspace_catalog_shards@, roots@, head.file_id) is Some,
            old(self).nodes().contains_key(head.root.0),
            old(self).nodes()[head.root.0].covered_range.start.0 == 0,
            head.size <= old(self).nodes()[head.root.0].covered_range.end() * block_size@,
        ensures
            final(self).files_wf(block_size@),
            *final(self) == (MetadataInner {
                keyspace_catalog_shards: final(self).keyspace_catalog_shards,
                next_keyspace_catalog_shard_id: final(self).next_keyspace_catalog_shard_id,
                ..*old(self)
            }),
            keeps_shards(
                old(self).keyspace_catalog_shards@,
                final(self).keyspace_catalog_shards@,
            ),
            forall|k: KeyspaceId, f: FileId| #[trigger]
                final(self).file_head(k, f) == old(self).file_head(k, f),
            result is Ok <==> old(self).next_keyspace_catalog_shard_id < u128::MAX,
            final(self).next_keyspace_catalog_shard_id <= old(self).next_keyspace_catalog_shard_id
                + 1,
            result matches Ok((index, old_shard, new_shard)) ==> index == catalog_index(
                head.file_id,
                roots@.len() as int,
            ) && index < roots@.len() && old_shard == roots@[index as int] && new_shard.0 == old(
                self,
            ).next_keyspace_catalog_shard_id && staged_shard(
                final(self).keyspace_catalog_shards@,
                old_shard,
                new_shard,
                head,
            ),
            result matches Err(error) ==> error is Conflict && *final(self) == *old(self),
    {
        let ghost before = *self;
        let ghost bs = block_size@;
        if self.next_keyspace_catalog_shard_id == u128::MAX {
            return Err(StorageError::conflict("keyspace catalog shard id overflow"));
        }
        let index = shard_index_of(head.file_id, roots.len());
        let old_shard = roots[index];
        let new_shard = KeyspaceCatalogShardId(self.next_keyspace_catalog_shard_id);
        let ghost shards = before.keyspace_catalog_shards@;
        assert(shards.contains_key(old_shard.0));
        assert(!shards.contains_key(new_shard.0));
        let (mut files, name) = match self.keyspace_catalog_shards.get(old_shard.raw()) {
            Some(shard) => {
                let name = match shard.files.get(head.file_id.raw()) {
                    Some(file) => copy_name(&file.name),
                    None => None,
                };
                (copy_files(&shard.files), name)
            },
            None => {
                assert(false);
                (IdMap::new(), None)
            },
        };
        let ghost old_files = shards[old_shard.0].files@;
        let file = KeyspaceFile { name, head };
        files.insert(head.file_id.raw(), file);
        let ghost new_files = files@;
        self.keyspace_catalog_shards.insert(
            new_shard.raw(),
            KeyspaceCatalogShard { shard_id: new_shard, files },
        );
        self.next_keyspace_catalog_shard_id = self.next_keyspace_catalog_shard_id + 1;
        proof {
            let after = self.keyspace_catalog_shards@;
            assert(catalog_shard_wf(before.nodes(), shards[old_shard.0], bs, before.next_file_id));
            assert(file_wf(before.nodes(), file, head.file_id.0, bs, before.next_file_id)) by {
                assert(old_files.contains_key(head.file_id.0));
                assert(file_wf(
                    before.nodes(),
                    old_files[head.file_id.0],
                    head.file_id.0,
                    bs,
                    before.next_file_id,
                ));
            }
            assert forall|id: u128| #[trigger] after.contains_key(id) implies id
                < self.next_keyspace_catalog_shard_id && catalog_shard_wf(
                before.nodes(),
                after[id],
                bs,
                before.next_file_id,
            ) by {
                if id == new_shard.0 {
                    assert forall|f: u128| #[trigger] new_files.contains_key(f) implies file_wf(
                        before.nodes(),
                        new_files[f],
                        f,
                        bs,
                        before.next_file_id,
                    ) by {
                        if f != head.file_id.0 {
                            assert(old_files.contains_key(f));
                            assert(file_wf(
                                before.nodes(),
                                old_files[f],
                                f,
                                bs,
                                before.next_file_id,
                            ));
                        }
                    }
                } else {
                    assert(shards.contains_key(id));
                }
            }
            crate::metadata_files::lemma_more_shards(before, *self, bs);
            assert(new_files.dom() =~= old_files.dom().insert(head.file_id.0));
        }
        Ok((index, old_shard, new_shard))
    }

    /// Makes a keyspace use a staged catalog shard.
    #[verifier::rlimit(60)]
    pub(crate) fn link_shard(
        &mut self,
        keyspace_id: KeyspaceId,
        index: usize,
        old_shard: KeyspaceCatalogShardId,
        new_shard: KeyspaceCatalogShardId,
        head: FileHead,
        commit_seq: CommitSeq,
        block_size: Ghost<u64>,
    ) -> (result: Result<(), StorageError>)
        requires
            old(self).files_wf(block_size@),
            staged_shard(old(self).keyspace_catalog_shards@, old_shard, new_shard, head),
        ensures
            final(self).files_wf(block_size@),
            *final(self) == (MetadataInner {
                keyspace_heads: final(self).keyspace_heads,
                ..*old(self)
            }),
            final(self).keyspace_heads@.dom() == old(self).keyspace_heads@.dom(),
            result is Ok <==> old(self).has_keyspace(keyspace_id) && index < old(self).catalog_of(
                keyspace_id,
            ).len() && old(self).catalog_of(keyspace_id)[index as int] == old_shard && index
                == catalog_index(head.file_id, old(self).catalog_of(keyspace_id).len() as int)
                && old(self).keyspace_heads@[keyspace_id.0].generation.0 < u64::MAX,
            result is Ok ==> {
                &&& final(self).file_head(keyspace_id, head.file_id) == Some(head)
                &&& final(self).other_files_kept(old(self), keyspace_id, head.file_id)
                &&& final(self).catalog_of(keyspace_id) == old(self).catalog_of(
                    keyspace_id,
                ).update(index as int, new_shard)
                &&& final(self).keyspace_heads@.remove(keyspace_id.0) == old(
                    self,
                ).keyspace_heads@.remove(keyspace_id.0)
                &&& final(self).keyspace_heads@[keyspace_id.0].file_count == old(
                    self,
                ).keyspace_heads@[keyspace_id.0].file_count
                &&& final(self).keyspace_heads@[keyspace_id.0].generation.0 == old(
                    self,
                ).keyspace_heads@[keyspace_id.0].generation.0 + 1
                &&& final(self).keyspace_heads@[keyspace_id.0].latest_commit.0 == if commit_seq.0
                    > old(self).keyspace_heads@[keyspace_id.0].latest_commit.0 {
                    commit_seq.0
                } else {
                    old(self).keyspace_heads@[keyspace_id.0].latest_commit.0
                }
            },
            result is Err ==> *final(self) == *old(self),
    {
        let ghost before = *self;
        let current = match self.keyspace_heads.get(keyspace_id.raw()) {
            Some(current) => current,
            None => return Err(StorageError::not_found("keyspace", keyspace_id.raw())),
        };
        assert(self.keyspace_heads@.contains_key(keyspace_id.0));
        if index >= current.shard_roots.len() || current.shard_roots[index].0 != old_shard.0
            || shard_index_of(head.file_id, current.shard_roots.len()) != index {
            return Err(
                StorageError::corrupt(
                    "prepared append publish catalog shard changed before apply",
                ),
            );
        }
        if current.generation.0 == u64::MAX {
            return Err(StorageError::conflict("keyspace generation overflow"));
        }
        let latest: u64 = if commit_seq.0 > current.latest_commit.0 {
            commit_seq.0
        } else {
            current.latest_commit.0
        };
        let mut roots = copy_vec(&current.shard_roots);
        let ghost old_roots = roots@;
        roots.set(index, new_shard);
        let ghost new_roots = roots@;
        let next = KeyspaceHead {
            keyspace_id,
            generation: KeyspaceGeneration(current.generation.0 + 1),
            shard_roots: roots,
            file_count: current.file_count,
            latest_commit: CommitSeq(latest),
        };
        self.keyspace_heads.insert(keyspace_id.raw(), next);
        proof {
            let shards = before.keyspace_catalog_shards@;
            let old_files = shards[old_shard.0].files@;
            let new_files = shards[new_shard.0].files@;
            assert(self.keyspace_heads@.dom() =~= before.keyspace_heads@.dom());
            assert(self.keyspace_heads@.remove(keyspace_id.0) =~= before.keyspace_heads@.remove(
                keyspace_id.0,
            ));
            assert(new_roots =~= old_roots.update(index as int, new_shard));
            assert forall|k: u128| #[trigger] self.keyspace_heads@.contains_key(k) implies k
                < self.next_keyspace_id && self.keyspace_heads@[k].keyspace_id.0 == k
                && catalog_roots_wf(shards, self.keyspace_heads@[k].shard_roots@) by {
                assert(before.keyspace_heads@.contains_key(k));
                if k == keyspace_id.0 {
                    assert(catalog_roots_wf(shards, old_roots));
                    assert forall|i: int| 0 <= i < new_roots.len() implies shards.contains_key(
                        (#[trigger] new_roots[i]).0,
                    ) by {
                        if i != index {
                            assert(new_roots[i] == old_roots[i]);
                        }
                    }
                }
            }
            assert(new_roots[index as int] == new_shard);
            assert(new_files.dom().contains(head.file_id.0));
            assert forall|k: KeyspaceId, f: FileId|
                (k != keyspace_id || f != head.file_id) && before.has_keyspace(
                    k,
                ) implies #[trigger] self.file_head(k, f) == before.file_head(k, f) by {
                assert(before.keyspace_heads@.contains_key(k.0));
                let held = before.catalog_of(k);
                let at = catalog_index(f, held.len() as int);
                assert(0 <= at < held.len());
                if k == keyspace_id {
                    if at == index {
                        assert(f.0 != head.file_id.0);
                        assert(new_files.dom().contains(f.0) == old_files.dom().contains(f.0));
                        if old_files.contains_key(f.0) {
                            assert(new_files[f.0].head == old_files[f.0].head);
                        }
                    } else {
                        assert(new_roots[at] == old_roots[at]);
                    }
                } else {
                    assert(k.0 != keyspace_id.0);
                }
            }
        }
        Ok(())
    }
}

/// Where a commit belongs in a history that is ordered by sequence numbers.
pub(crate) fn keyspace_commit_place(commits: &Vec<KeyspaceCommit>, seq: u64, shard_index: u32) -> (place:
    usize)
    ensures
        place <= commits@.len(),
        forall|i: int|
            place <= i < commits@.len() ==> (#[trigger] commits@[i]).commit_seq.0 > seq || (
            commits@[i].commit_seq.0 == seq && commits@[i].shard_index > shard_index),
        place > 0 ==> !(commits@[place - 1].commit_seq.0 > seq || (commits@[place
            - 1].commit_seq.0 == seq && commits@[place - 1].shard_index > shard_index)),
{
    let mut place: usize = commits.len();
    while place > 0 && (commits[place - 1].commit_seq.0 > seq || (commits[place - 1].commit_seq.0
        == seq && commits[place - 1].shard_index > shard_index))
        invariant
            place <= commits@.len(),
            forall|i: int|
                place <= i < commits@.len() ==> (#[trigger] commits@[i]).commit_seq.0 > seq || (
                commits@[i].commit_seq.0 == seq && commits@[i].shard_index > shard_index),
        decreases place,
    {
        place = place - 1;
    }
    place
}

/// Whether a file's commit comes behind another one in the history.
pub open spec fn file_commit_behind(commit: FileCommit, seq: u64, keyspace: u128, file: u128) -> bool {
    ||| commit.commit_seq.0 > seq
    ||| commit.commit_seq.0 == seq && commit.keyspace_id.0 > keyspace
    ||| commit.commit_seq.0 == seq && commit.keyspace_id.0 == keyspace && commit.file_id.0 > file
}

pub(crate) fn file_commit_place(commits: &Vec<FileCommit>, seq: u64, keyspace: u128, file: u128) -> (place:
    usize)
    ensures
        place <= commits@.len(),
        forall|i: int|
            place <= i < commits@.len() ==> file_commit_behind(
                #[trigger] commits@[i],
                seq,
                keyspace,
                file,
            ),
        place > 0 ==> !file_commit_behind(commits@[place - 1], seq, keyspace, file),
{
    let mut place: usize = commits.len();
    while place > 0
        invariant
            place <= commits@.len(),
            forall|i: int|
                place <= i < commits@.len() ==> file_commit_behind(
                    #[trigger] commits@[i],
                    seq,
                    keyspace,
                    file,
                ),
        decreases place,
    {
        let commit = commits[place - 1];
        let behind = commit.commit_seq.0 > seq || (commit.commit_seq.0 == seq
            && commit.keyspace_id.0 > keyspace) || (commit.commit_seq.0 == seq
            && commit.keyspace_id.0 == keyspace && commit.file_id.0 > file);
        if !behind {
            return place;
        }
        place = place - 1;
    }
    place
}

/// Whether every commit between two numbers belongs to a publish that is in
/// flight.
pub open spec fn gap_in_flight(
    in_flight: Map<u128, AppendPublishInFlight>,
    durable_next: u64,
    local_next: u64,
) -> bool {
    &&& durable_next <= local_next
    &&& forall|seq: u64|
        durable_next <= seq < local_next ==> #[trigger] seq_in_flight(in_flight, seq)
}

pub open spec fn seq_in_flight(in_flight: Map<u128, AppendPublishInFlight>, seq: u64) -> bool {
    exists|id: u128| #[trigger] in_flight.contains_key(id) && in_flight[id].commit_seq.0 == seq
}

fn is_seq_in_flight(in_flight: &IdMap<AppendPublishInFlight>, seq: u64) -> (found: bool)
    ensures
        found == seq_in_flight(in_flight@, seq),
{
    let count = in_flight.len();
    let ghost keys = in_flight.keys();
    let mut i: usize = 0;
    while i < count
        invariant
            i <= count,
            count == keys.len(),
            keys == in_flight.keys(),
            is_walk(keys, in_flight@),
            forall|k: int| 0 <= k < i ==> in_flight@[#[trigger] keys[k]].commit_seq.0 != seq,
        decreases count - i,
    {
        let (id, publish) = in_flight.entry_at(i);
        assert(keys[i as int] == id);
        if publish.commit_seq.0 == seq {
            assert(in_flight@.contains_key(id));
            return true;
        }
        i = i + 1;
    }
    proof {
        if seq_in_flight(in_flight@, seq) {
            let id = choose|id: u128| #[trigger]
                in_flight@.contains_key(id) && in_flight@[id].commit_seq.0 == seq;
            assert(keys.contains(id));
            let k = choose|k: int| 0 <= k < keys.len() && keys[k] == id;
            assert(in_flight@[keys[k]].commit_seq.0 != seq);
        }
    }
    false
}

/// Whether every commit that is not durable yet belongs to a publish in flight.
pub fn append_publish_commit_gap_is_in_flight(
    in_flight: &IdMap<AppendPublishInFlight>,
    durable_next_commit_seq: u64,
    local_next_commit_seq: u64,
) -> (covered: bool)
    ensures
        covered == gap_in_flight(in_flight@, durable_next_commit_seq, local_next_commit_seq),
{
    if durable_next_commit_seq > local_next_commit_seq {
        return false;
    }
    let mut seq: u64 = durable_next_commit_seq;
    while seq < local_next_commit_seq
        invariant
            durable_next_commit_seq <= seq <= local_next_commit_seq,
            forall|s: u64|
                durable_next_commit_seq <= s < seq ==> #[trigger] seq_in_flight(in_flight@, s),
        decreases local_next_commit_seq - seq,
    {
        if !is_seq_in_flight(in_flight, seq) {
            return false;
        }
        seq = seq + 1;
    }
    true
}

/// Whether a publish of a file is in flight.
pub open spec fn file_in_flight(
    in_flight: Map<u128, AppendPublishInFlight>,
    keyspace_id: KeyspaceId,
    file_id: FileId,
) -> bool {
    exists|id: u128| #[trigger]
        in_flight.contains_key(id) && in_flight[id].keyspace_id == keyspace_id
            && in_flight[id].file_id == file_id
}

fn is_file_in_flight(
    in_flight: &IdMap<AppendPublishInFlight>,
    keyspace_id: KeyspaceId,
    file_id: FileId,
) -> (found: bool)
    ensures
        found == file_in_flight(in_flight@, keyspace_id, file_id),
{
    let count = in_flight.len();
    let ghost keys = in_flight.keys();
    let mut i: usize = 0;
    while i < count
        invariant
            i <= count,
            count == keys.len(),
            keys == in_flight.keys(),
            is_walk(keys, in_flight@),
            forall|k: int|
                0 <= k < i ==> in_flight@[#[trigger] keys[k]].keyspace_id != keyspace_id
                    || in_flight@[keys[k]].file_id != file_id,
        decreases count - i,
    {
        let (id, publish) = in_flight.entry_at(i);
        assert(keys[i as int] == id);
        if publish.keyspace_id.0 == keyspace_id.0 && publish.file_id.0 == file_id.0 {
            assert(in_flight@.contains_key(id));
            return true;
        }
        i = i + 1;
    }
    proof {
        if file_in_flight(in_flight@, keyspace_id, file_id) {
            let id = choose|id: u128| #[trigger]
                in_flight@.contains_key(id) && in_flight@[id].keyspace_id == keyspace_id
                    && in_flight@[id].file_id == file_id;
            assert(keys.contains(id));
            let k = choose|k: int| 0 <= k < keys.len() && keys[k] == id;
            assert(in_flight@[keys[k]].keyspace_id != keyspace_id || in_flight@[keys[k]].file_id
                != file_id);
        }
    }
    false
}

/// A publish as it is recorded before its metadata is.
pub struct AppendVisiblePublish {
    pub record_id: AppendPublishTicketId,
    pub commit_seq: CommitSeq,
    pub keyspace_id: KeyspaceId,
    pub file_id: FileId,
    pub base_writer_epoch: WriterEpoch,
    pub writer_epoch: WriterEpoch,
    pub base_file_version: FileVersion,
    pub new_file_version: FileVersion,
    pub old_size: u64,
    pub new_size: u64,
    pub publish_through: u64,
    pub run_extents: Vec<RunBackedFileExtent>,
}

/// Whether extents fill a range without a gap.
pub open spec fn extents_fill(
    extents: Seq<RunBackedFileExtent>,
    start: int,
    end: int,
) -> bool {
    &&& extents.len() > 0
    &&& extents[0].file_offset_start == start
    &&& extents.last().range().end() == end
    &&& forall|i: int| 0 <= i < extents.len() ==> (#[trigger] extents[i]).wf()
    &&& forall|i: int, j: int|
        0 <= i && j == i + 1 && j < extents.len() ==> (#[trigger] extents[i]).range().end() == (
        #[trigger] extents[j]).file_offset_start
}

/// Extents that fill a range lie in it, one behind the other.
pub proof fn lemma_fill_wf(extents: Seq<RunBackedFileExtent>, start: int, end: int)
    requires
        extents_fill(extents, start, end),
    ensures
        extents_wf(extents, start, end),
        start < end,
    decreases extents.len(),
{
    let n = extents.len() - 1;
    if n > 0 {
        let shorter = extents.drop_last();
        let middle = extents[n].file_offset_start as int;
        assert(extents[n - 1].range().end() == extents[n].file_offset_start);
        assert(extents_fill(shorter, start, middle));
        lemma_fill_wf(shorter, start, middle);
        assert forall|i: int| 0 <= i < extents.len() implies (#[trigger] extents[i]).wf() && start
            <= extents[i].file_offset_start && extents[i].range().end() <= end by {
            if i < n {
                assert(shorter[i] == extents[i]);
            }
        }
        assert forall|i: int, j: int| 0 <= i < j < extents.len() implies (
        #[trigger] extents[i]).range().end() <= (#[trigger] extents[j]).file_offset_start by {
            assert(shorter[i] == extents[i]);
            if j < n {
                assert(shorter[j] == extents[j]);
            }
        }
    }
}

impl AppendVisiblePublish {
    /// Whether the record agrees with itself.
    pub open spec fn valid(self) -> bool {
        &&& self.old_size < self.new_size
        &&& self.publish_through == self.new_size
        &&& self.new_file_version.0 == self.base_file_version.0 + 1
        &&& self.base_writer_epoch.0 <= self.writer_epoch.0
        &&& extents_fill(self.run_extents@, self.old_size as int, self.new_size as int)
    }

    pub fn validate(&self) -> (result: Result<(), StorageError>)
        ensures
            result is Ok <==> self.valid(),
            result matches Err(error) ==> error is Corrupt,
    {
        if self.old_size >= self.new_size || self.publish_through != self.new_size
            || self.base_file_version.0 == u64::MAX || self.new_file_version.0
            != self.base_file_version.0 + 1 || self.base_writer_epoch.0 > self.writer_epoch.0 {
            return Err(StorageError::corrupt("append visible publish is inconsistent"));
        }
        if self.run_extents.len() == 0 {
            return Err(StorageError::corrupt("append visible publish has no runs"));
        }
        let mut next: u64 = self.old_size;
        let mut i: usize = 0;
        while i < self.run_extents.len()
            invariant
                i <= self.run_extents@.len(),
                i == 0 ==> next == self.old_size,
                i > 0 ==> next == self.run_extents@[i - 1].range().end()
                    && self.run_extents@[0].file_offset_start == self.old_size,
                forall|k: int| 0 <= k < i ==> (#[trigger] self.run_extents@[k]).wf(),
                forall|a: int, b: int|
                    0 <= a && b == a + 1 && b < i ==> (
                    #[trigger] self.run_extents@[a]).range().end() == (
                    #[trigger] self.run_extents@[b]).file_offset_start,
            decreases self.run_extents@.len() - i,
        {
            let extent = self.run_extents[i];
            assert(self.run_extents@[i as int] == extent);
            let sound = extent.payload_len > 0 && extent.payload_len <= u64::MAX
                - extent.file_offset_start && extent.run.file_offset_start
                == extent.file_offset_start && extent.run.payload_len == extent.payload_len
                && extent.payload_len <= u64::MAX - extent.run.log_payload_offset;
            if !sound {
                assert(!self.run_extents@[i as int].wf());
                return Err(StorageError::corrupt("append visible publish run is invalid"));
            }
            if extent.file_offset_start != next {
                proof {
                    if i > 0 && self.valid() {
                        assert(self.run_extents@[i - 1].range().end()
                            == self.run_extents@[i as int].file_offset_start);
                    }
                }
                return Err(StorageError::corrupt("append visible publish runs leave a gap"));
            }
            next = extent.file_offset_start + extent.payload_len;
            i = i + 1;
        }
        if next != self.new_size {
            assert(self.run_extents@.last() == self.run_extents@[i - 1]);
            return Err(StorageError::corrupt("append visible publish runs end early"));
        }
        assert(self.run_extents@.last() == self.run_extents@[i - 1]);
        Ok(())
    }

    /// Whether the record is the next one for a file in a given state.
    pub open spec fn follows(self, head: FileHead, file_writer_epoch: u64) -> bool {
        &&& head.version == self.base_file_version
        &&& head.size == self.old_size
        &&& head.latest_commit.0 < self.commit_seq.0
        &&& file_writer_epoch == self.base_writer_epoch.0 || file_writer_epoch
            == self.writer_epoch.0
    }

    pub fn validate_for_reconstructed_head(&self, head: &FileHead, file_writer_epoch: u64)
        -> (result: Result<(), StorageError>)
        ensures
            result is Ok <==> self.follows(*head, file_writer_epoch),
            result matches Err(error) ==> error is Corrupt,
    {
        if head.version.0 != self.base_file_version.0 || head.size != self.old_size
            || head.latest_commit.0 >= self.commit_seq.0 {
            return Err(
                StorageError::corrupt("append visible publish does not follow the file head"),
            );
        }
        if file_writer_epoch != self.base_writer_epoch.0 && file_writer_epoch
            != self.writer_epoch.0 {
            return Err(
                StorageError::corrupt("append visible publish does not follow the writer epoch"),
            );
        }
        Ok(())
    }

    /// Whether a file already shows the publish.
    pub open spec fn shown_by(self, head: FileHead) -> bool {
        &&& head.version.0 >= self.new_file_version.0
        &&& head.size >= self.new_size
        &&& head.latest_commit.0 >= self.commit_seq.0
    }
}

/// Whether a file already shows a publish.
pub fn append_visible_publish_already_materialized(
    head: &FileHead,
    record: &AppendVisiblePublish,
) -> (shown: bool)
    ensures
        shown == record.shown_by(*head),
{
    head.version.0 >= record.new_file_version.0 && head.size >= record.new_size
        && head.latest_commit.0 >= record.commit_seq.0
}

/// A publish that is ready to be applied.
pub struct AppendPublishPlan {
    pub ticket: AppendPublishTicket,
    pub stream: AppendStream,
    pub old_head: FileHead,
    pub new_head: FileHead,
    pub new_keyspace_shard: KeyspaceCatalogShardId,
    pub commit_group: CommitGroupId,
    pub keyspace_commit: KeyspaceCommit,
    pub file_commit: FileCommit,
    pub commit: AppendPublishCommit,
    pub publish_range: ByteRange,
    pub payload_persist_start: u64,
    pub visible_publish: AppendVisiblePublish,
    pub in_flight: AppendPublishInFlight,
}

impl AppendPublishPlan {
    /// Whether the plan's parts agree with each other.
    pub open spec fn consistent(self) -> bool {
        &&& self.old_head.size < self.in_flight.publish_through
        &&& self.publish_range.offset == self.old_head.size
        &&& self.publish_range.len == self.in_flight.publish_through - self.old_head.size
        &&& self.new_head.root == self.file_commit.new_root
        &&& self.new_head.size == self.file_commit.new_size
        &&& self.new_head.version == self.file_commit.new_version
        &&& self.new_head.latest_commit == self.commit.commit_seq
        &&& self.in_flight.old_root == self.old_head.root
        &&& self.in_flight.old_size == self.old_head.size
    }

    /// Whether the plan's catalog shard is staged.
    pub open spec fn staged(self, shards: Map<u128, KeyspaceCatalogShard>) -> bool {
        &&& staged_shard(
            shards,
            self.keyspace_commit.old_shard,
            self.new_keyspace_shard,
            self.new_head,
        )
        &&& self.keyspace_commit.new_shard == self.new_keyspace_shard
        &&& self.keyspace_commit.keyspace_id == self.ticket.keyspace_id
        &&& self.keyspace_commit.commit_seq == self.commit.commit_seq
        &&& self.file_commit == file_commit_of(
            self.commit_group,
            self.ticket.keyspace_id,
            self.old_head,
            self.new_head,
        )
        &&& self.new_head.file_id == self.ticket.file_id
        &&& self.stream.stream_id == self.ticket.stream_id
        &&& self.stream.keyspace_id == self.ticket.keyspace_id
        &&& self.stream.file_id == self.ticket.file_id
    }
}

/// Whether drafts are heads of keyspaces over catalog shards that are there.
pub open spec fn drafts_wf(
    drafts: Map<u128, KeyspaceHead>,
    shards: Map<u128, KeyspaceCatalogShard>,
) -> bool {
    forall|id: u128| #[trigger]
        drafts.contains_key(id) ==> drafts[id].keyspace_id.0 == id && catalog_roots_wf(
            shards,
            drafts[id].shard_roots@,
        )
}

/// The catalog that a publish starts from: the draft's, else the keyspace's.
pub open spec fn draft_catalog(
    metadata: MetadataInner,
    drafts: Map<u128, KeyspaceHead>,
    keyspace_id: KeyspaceId,
) -> Seq<KeyspaceCatalogShardId> {
    if drafts.contains_key(keyspace_id.0) {
        drafts[keyspace_id.0].shard_roots@
    } else {
        metadata.catalog_of(keyspace_id)
    }
}

/// The head of a file that a publish starts from.
pub open spec fn draft_head(
    metadata: MetadataInner,
    drafts: Map<u128, KeyspaceHead>,
    keyspace_id: KeyspaceId,
    file_id: FileId,
) -> Option<FileHead> {
    if drafts.contains_key(keyspace_id.0) || metadata.has_keyspace(keyspace_id) {
        catalog_head(
            metadata.keyspace_catalog_shards@,
            draft_catalog(metadata, drafts, keyspace_id),
            file_id,
        )
    } else {
        None
    }
}

impl MetadataInner {
    /// A copy of the catalog that a publish starts from, with the keyspace's
    /// generation and number of files.
    fn copy_draft(&self, drafts: &IdMap<KeyspaceHead>, keyspace_id: KeyspaceId) -> (copy: Option<
        (Vec<KeyspaceCatalogShardId>, KeyspaceGeneration, usize),
    >)
        requires
            drafts_wf(drafts@, self.keyspace_catalog_shards@),
            exists|block_size: u64| self.files_wf(block_size),
        ensures
            copy is Some <==> drafts@.contains_key(keyspace_id.0) || self.has_keyspace(
                keyspace_id,
            ),
            copy matches Some((roots, generation, file_count)) ==> generation
                == if drafts@.contains_key(keyspace_id.0) {
                drafts@[keyspace_id.0].generation
            } else {
                self.keyspace_heads@[keyspace_id.0].generation
            },
            copy matches Some((roots, generation, file_count)) ==> roots@ == draft_catalog(
                *self,
                drafts@,
                keyspace_id,
            ) && catalog_roots_wf(self.keyspace_catalog_shards@, roots@),
    {
        let ghost bs = choose|block_size: u64| self.files_wf(block_size);
        assert(self.files_wf(bs));
        match drafts.get(keyspace_id.raw()) {
            Some(head) => {
                return Some((copy_vec(&head.shard_roots), head.generation, head.file_count));
            },
            None => {},
        }
        match self.keyspace_heads.get(keyspace_id.raw()) {
            Some(head) => {
                assert(self.keyspace_heads@.contains_key(keyspace_id.0));
                Some((copy_vec(&head.shard_roots), head.generation, head.file_count))
            },
            None => None,
        }
    }
}

impl LocalCoordinator {
    /// Whether a prepared publish takes nothing away and changes no file yet.
    pub open spec fn only_prepared(&self, before: &LocalCoordinator) -> bool {
        &&& self.wf()
        &&& self.keeps_store(before)
        &&& self.storage_nodes == before.storage_nodes
        &&& self.append_run_logs == before.append_run_logs
        &&& self.metadata.device_heads == before.metadata.device_heads
        &&& self.metadata.device_specs == before.metadata.device_specs
        &&& self.metadata.keyspace_heads == before.metadata.keyspace_heads
        &&& self.metadata.append_streams == before.metadata.append_streams
        &&& self.metadata.append_publish_tickets == before.metadata.append_publish_tickets
        &&& self.metadata.checkpoints == before.metadata.checkpoints
        &&& self.metadata.shard_commits == before.metadata.shard_commits
        &&& self.metadata.file_commits == before.metadata.file_commits
        &&& self.metadata.keyspace_commits == before.metadata.keyspace_commits
        &&& self.block_writer_epochs == before.block_writer_epochs
        &&& self.next_write_intent == before.next_write_intent
        &&& self.moved_within(before, 0)
        &&& keeps_shards(
            before.metadata.keyspace_catalog_shards@,
            self.metadata.keyspace_catalog_shards@,
        )
        &&& forall|k: KeyspaceId, f: FileId| #[trigger]
            self.metadata.file_head(k, f) == before.metadata.file_head(k, f)
    }

    /// Whether a publish can be prepared.
    pub open spec fn plan_ready(
        &self,
        ticket: AppendPublishTicket,
        previous: DurableExportCursor,
        drafts: Map<u128, KeyspaceHead>,
    ) -> bool {
        let record = self.metadata.append_publish_tickets@[ticket.ticket_id.0];
        let stream = self.metadata.append_streams@[ticket.stream_id.0];
        let head = draft_head(self.metadata, drafts, ticket.keyspace_id, ticket.file_id);
        &&& self.metadata.append_publish_tickets@.contains_key(ticket.ticket_id.0)
        &&& record.ticket == ticket
        &&& record.completed is None
        &&& record.stream.keyspace_id == ticket.keyspace_id
        &&& record.stream.file_id == ticket.file_id
        &&& record.stream.stream_id == ticket.stream_id
        &&& record.stream.writer_epoch == ticket.writer_epoch
        &&& token_open(self.metadata.append_streams@, record.stream)
        &&& head is Some
        &&& stream.state.published_through == head->0.size
        &&& head->0.size < ticket.publish_through <= stream.accepted_tail
        &&& ticket.publish_through <= self.nodes()[head->0.root.0].covered_range.end()
            * self.block_size()
        &&& stream.base_writer_epoch.0 <= ticket.writer_epoch.0
        &&& head->0.version.0 < u64::MAX
        &&& drafts.contains_key(ticket.keyspace_id.0) ==> drafts[ticket.keyspace_id.0].generation.0
            < u64::MAX
        &&& !drafts.contains_key(ticket.keyspace_id.0)
            ==> self.metadata.keyspace_heads@[ticket.keyspace_id.0].generation.0 < u64::MAX
        &&& gap_in_flight(
            self.metadata.append_publish_in_flight@,
            previous.next_commit_seq,
            self.metadata.next_commit_seq,
        )
        &&& !file_in_flight(
            self.metadata.append_publish_in_flight@,
            ticket.keyspace_id,
            ticket.file_id,
        )
        &&& !self.metadata.append_publish_in_flight@.contains_key(ticket.ticket_id.0)
    }

    /// Whether a plan's record is that of its ticket's publish: every field is taken
    /// from the ticket, the heads and the stream, and the extents are the stream's
    /// first runs, up to the ticket's place.
    pub open spec fn plan_recorded(&self, plan: AppendPublishPlan) -> bool {
        let ticket = plan.ticket;
        let stream = self.metadata.append_streams@[ticket.stream_id.0];
        &&& plan.visible_publish == (AppendVisiblePublish {
            record_id: ticket.ticket_id,
            commit_seq: CommitSeq(self.metadata.next_commit_seq),
            keyspace_id: ticket.keyspace_id,
            file_id: ticket.file_id,
            base_writer_epoch: if stream.state.durable_through > stream.state.visible_base_size {
                stream.state.writer_epoch
            } else {
                stream.base_writer_epoch
            },
            writer_epoch: ticket.writer_epoch,
            base_file_version: plan.old_head.version,
            new_file_version: plan.new_head.version,
            old_size: plan.old_head.size,
            new_size: ticket.publish_through,
            publish_through: ticket.publish_through,
            run_extents: plan.visible_publish.run_extents,
        })
        &&& extents_fill(
            plan.visible_publish.run_extents@,
            plan.old_head.size as int,
            ticket.publish_through as int,
        )
        &&& plan.visible_publish.run_extents@.len() <= stream.state.records@.len()
        &&& forall|i: int|
            0 <= i < plan.visible_publish.run_extents@.len() ==> (
            #[trigger] plan.visible_publish.run_extents@[i]) == record_extent(
                record_up_to(stream.state.records@[i], ticket.publish_through as int),
            )
        &&& plan.payload_persist_start == if stream.state.durable_through
            <= ticket.publish_through {
            stream.state.durable_through
        } else {
            ticket.publish_through
        }
    }

    /// Prepares a publish on top of earlier ones that are not applied yet: the new
    /// tree, the new catalog shard and the records of the commit.
    #[verifier::rlimit(100)]
    pub fn prepare_append_publish_plan_with_drafts(
        &mut self,
        ticket: &AppendPublishTicket,
        durability: WriteDurability,
        previous: &DurableExportCursor,
        drafts: &mut IdMap<KeyspaceHead>,
    ) -> (result: Result<AppendPublishPlan, StorageError>)
        requires
            old(self).wf(),
            drafts_wf(old(drafts)@, old(self).metadata.keyspace_catalog_shards@),
        ensures
            final(self).only_prepared(old(self)),
            drafts_wf(final(drafts)@, final(self).metadata.keyspace_catalog_shards@),
            result is Err ==> final(drafts)@ == old(drafts)@
                && final(self).metadata.append_publish_in_flight == old(
                self,
            ).metadata.append_publish_in_flight,
            old(self).plan_ready(*ticket, *previous, old(drafts)@) && old(self).room_for(0)
                ==> result is Ok,
            result matches Ok(plan) ==> {
                let record = old(self).metadata.append_publish_tickets@[ticket.ticket_id.0];
                let head = draft_head(
                    old(self).metadata,
                    old(drafts)@,
                    ticket.keyspace_id,
                    ticket.file_id,
                );
                &&& record.ticket == *ticket
                &&& record.completed is None
                &&& gap_in_flight(
                    old(self).metadata.append_publish_in_flight@,
                    previous.next_commit_seq,
                    old(self).metadata.next_commit_seq,
                )
                &&& !file_in_flight(
                    old(self).metadata.append_publish_in_flight@,
                    ticket.keyspace_id,
                    ticket.file_id,
                )
                &&& plan.ticket == *ticket
                &&& plan.stream == record.stream
                &&& head == Some(plan.old_head)
                &&& plan.new_head == old(self).metadata.published_head(
                    plan.old_head,
                    plan.new_head.root,
                    ticket.publish_through,
                )
                &&& plan.consistent()
                &&& plan.staged(final(self).metadata.keyspace_catalog_shards@)
                &&& plan.visible_publish.valid()
                &&& old(self).plan_recorded(plan)
                &&& forall|byte: int|
                    plan.publish_range.contains(byte) ==> #[trigger] tree_byte(
                        final(self).nodes(),
                        final(self).segments(),
                        final(self).logs(),
                        plan.new_head.root,
                        final(self).block_size(),
                        byte,
                    ) == old(self).stream_byte(ticket.stream_id, byte)->0
                &&& plan.commit_group.0 == old(self).metadata.next_commit_group_id
                &&& plan.publish_range == (ByteRange {
                    offset: plan.old_head.size,
                    len: (ticket.publish_through - plan.old_head.size) as u64,
                })
                &&& plan.commit == (AppendPublishCommit {
                    keyspace_id: ticket.keyspace_id,
                    file_id: ticket.file_id,
                    range: plan.publish_range,
                    version: plan.new_head.version,
                    commit_seq: CommitSeq(old(self).metadata.next_commit_seq),
                    durability,
                })
                &&& plan.in_flight == (AppendPublishInFlight {
                    ticket_id: ticket.ticket_id,
                    stream_id: ticket.stream_id,
                    commit_seq: plan.commit.commit_seq,
                    writer_epoch: ticket.writer_epoch,
                    keyspace_id: ticket.keyspace_id,
                    file_id: ticket.file_id,
                    publish_through: ticket.publish_through,
                    old_root: plan.old_head.root,
                    old_size: plan.old_head.size,
                })
                &&& final(self).metadata.next_commit_seq == old(self).metadata.next_commit_seq + 1
                &&& final(self).metadata.append_publish_in_flight@ == old(
                    self,
                ).metadata.append_publish_in_flight@.insert(ticket.ticket_id.0, plan.in_flight)
                &&& tree_with_runs(
                    *old(self),
                    *final(self),
                    plan.old_head.root,
                    plan.new_head.root,
                    plan.publish_range,
                    plan.visible_publish.run_extents@,
                )
                &&& draft_head(
                    final(self).metadata,
                    final(drafts)@,
                    ticket.keyspace_id,
                    ticket.file_id,
                ) == Some(plan.new_head)
            },
    {
        let ghost before = *self;
        let bs: u64 = self.config.block_size as u64;
        let ghost drafts_before = drafts@;
        let record = match self.metadata.append_publish_ticket_status(ticket) {
            Ok(record) => record,
            Err(error) => return Err(error),
        };
        if record.completed.is_some() {
            return Err(StorageError::conflict("append publish ticket is already completed"));
        }
        let stream = record.stream;
        if stream.keyspace_id.0 != ticket.keyspace_id.0 || stream.file_id.0 != ticket.file_id.0
            || stream.stream_id.0 != ticket.stream_id.0 || stream.writer_epoch.0
            != ticket.writer_epoch.0 {
            return Err(StorageError::conflict("stale append publish ticket"));
        }
        assert(self.metadata.files_wf(bs));
        let (roots, generation, file_count) = match self.metadata.copy_draft(
            drafts,
            ticket.keyspace_id,
        ) {
            Some(copy) => copy,
            None => return Err(StorageError::not_found("keyspace", ticket.keyspace_id.raw())),
        };
        let old_head = match self.metadata.catalog_lookup(&roots, ticket.file_id) {
            Some(old_head) => old_head,
            None => return Err(StorageError::not_found("file", ticket.file_id.raw())),
        };
        proof {
            lemma_catalog_head_wf(self.metadata, roots@, ticket.file_id, bs);
        }
        let records = match self.metadata.append_stream_publish_records(
            &stream,
            old_head.size,
            ticket.publish_through,
            Ghost(before.logs()),
        ) {
            Ok(records) => records,
            Err(error) => return Err(error),
        };
        if !append_publish_commit_gap_is_in_flight(
            &self.metadata.append_publish_in_flight,
            previous.next_commit_seq,
            self.metadata.next_commit_seq,
        ) {
            return Err(
                StorageError::conflict("prepared append publish requires prior metadata durable"),
            );
        }
        if is_file_in_flight(
            &self.metadata.append_publish_in_flight,
            ticket.keyspace_id,
            ticket.file_id,
        ) {
            return Err(StorageError::conflict("append publish already in flight for file"));
        }
        if self.metadata.append_publish_in_flight.contains_key(ticket.ticket_id.raw()) {
            return Err(
                StorageError::conflict("append publish ticket already has in-flight plan"),
            );
        }
        if self.metadata.next_commit_seq == u64::MAX || self.metadata.next_commit_group_id
            == u128::MAX || old_head.version.0 == u64::MAX || generation.0 == u64::MAX {
            return Err(StorageError::conflict("commit sequence overflow"));
        }
        let (durable_through, base_epoch) = match self.metadata.append_streams.get(
            stream.stream_id.raw(),
        ) {
            Some(state) => (
                state.state.durable_through,
                if state.state.durable_through > state.state.visible_base_size {
                    state.state.writer_epoch
                } else {
                    state.base_writer_epoch
                },
            ),
            None => return Err(StorageError::conflict("stale append publish ticket")),
        };
        if base_epoch.0 > ticket.writer_epoch.0 {
            return Err(StorageError::conflict("append publish stream state changed before plan"));
        }
        let extents = record_extents(&records, Ghost(before.logs()));
        let range = ByteRange {
            offset: old_head.size,
            len: ticket.publish_through - old_head.size,
        };
        proof {
            lemma_record_extents(
                before.logs(),
                records@,
                old_head.size as int,
                ticket.publish_through as int,
            );
            lemma_extents_fill(
                before.logs(),
                records@,
                old_head.size as int,
                ticket.publish_through as int,
            );
        }
        let covered = match self.metadata.trees.nodes.get(old_head.root.raw()) {
            Some(node) => node.covered_range,
            None => return Err(StorageError::not_found("metadata_node", old_head.root.raw())),
        };
        proof {
            assert(crate::tree::node_wf(self.nodes(), old_head.root.0, bs));
            assert(covered.end() <= u64::MAX) by (nonlinear_arith)
                requires
                    covered.end() * bs <= u64::MAX,
                    bs >= 1,
                    covered.end() >= 0,
            ;
        }
        if ticket.publish_through > (covered.start.0 + covered.blocks.0) * bs {
            return Err(StorageError::invalid_argument("file size exceeds file root coverage"));
        }
        let new_root = match self.put_runs(old_head.root, range, &extents) {
            Ok(new_root) => new_root,
            Err(error) => return Err(error),
        };
        let ghost middle = *self;
        let seq = CommitSeq(self.metadata.next_commit_seq);
        let group = CommitGroupId(self.metadata.next_commit_group_id);
        let new_head = FileHead {
            file_id: old_head.file_id,
            version: FileVersion(old_head.version.0 + 1),
            root: new_root,
            size: ticket.publish_through,
            latest_commit: seq,
        };
        assert(self.metadata.files_wf(bs));
        let staged = self.metadata.stage_file(&roots, new_head, Ghost(bs));
        proof {
            assert(self.metadata.devices_wf(bs));
            assert(self.wf());
        }
        let (index, old_shard, new_shard) = match staged {
            Ok(staged) => staged,
            Err(error) => return Err(error),
        };
        assert(1usize <= usize::MAX);
        self.metadata.next_commit_seq = self.metadata.next_commit_seq + 1;
        self.metadata.next_commit_group_id = self.metadata.next_commit_group_id + 1;
        let in_flight = AppendPublishInFlight {
            ticket_id: ticket.ticket_id,
            stream_id: ticket.stream_id,
            commit_seq: seq,
            writer_epoch: ticket.writer_epoch,
            keyspace_id: ticket.keyspace_id,
            file_id: ticket.file_id,
            publish_through: ticket.publish_through,
            old_root: old_head.root,
            old_size: old_head.size,
        };
        self.metadata.append_publish_in_flight.insert(ticket.ticket_id.raw(), in_flight);
        let mut new_roots = copy_vec(&roots);
        new_roots.set(index, new_shard);
        let ghost drafted_roots = new_roots@;
        drafts.insert(
            ticket.keyspace_id.raw(),
            KeyspaceHead {
                keyspace_id: ticket.keyspace_id,
                generation: KeyspaceGeneration(generation.0 + 1),
                shard_roots: new_roots,
                file_count,
                latest_commit: seq,
            },
        );
        let payload_persist_start: u64 = if durable_through <= ticket.publish_through {
            durable_through
        } else {
            ticket.publish_through
        };
        proof {
            let shards = self.metadata.keyspace_catalog_shards@;
            assert(self.metadata.devices_wf(bs));
            assert(self.metadata.files_wf(bs));
            assert(self.wf());
            assert forall|id: u128| #[trigger] drafts@.contains_key(id) implies
                drafts@[id].keyspace_id.0 == id && catalog_roots_wf(
                shards,
                drafts@[id].shard_roots@,
            ) by {
                if id == ticket.keyspace_id.0 {
                    assert forall|i: int| 0 <= i < drafted_roots.len() implies shards.contains_key(
                        (#[trigger] drafted_roots[i]).0,
                    ) by {
                        if i != index {
                            assert(drafted_roots[i] == roots@[i]);
                            assert(before.metadata.keyspace_catalog_shards@.contains_key(
                                roots@[i].0,
                            ));
                        }
                    }
                } else {
                    assert(drafts_before.contains_key(id));
                    let held = drafts_before[id].shard_roots@;
                    assert forall|i: int| 0 <= i < held.len() implies shards.contains_key(
                        (#[trigger] held[i]).0,
                    ) by {
                        assert(before.metadata.keyspace_catalog_shards@.contains_key(held[i].0));
                    }
                }
            }
            assert(drafted_roots[index as int] == new_shard);
            assert(shards[new_shard.0].files@.dom().contains(ticket.file_id.0));
            assert(draft_head(
                self.metadata,
                drafts@,
                ticket.keyspace_id,
                ticket.file_id,
            ) == Some(new_head));
            lemma_plan_bytes(
                before,
                *self,
                old_head.root,
                new_root,
                range,
                records@,
                stream.stream_id,
            );
            assert forall|i: int| 0 <= i < extents@.len() implies (#[trigger] extents@[i])
                == record_extent(
                record_up_to(
                    before.metadata.append_streams@[stream.stream_id.0].state.records@[i],
                    ticket.publish_through as int,
                ),
            ) by {
                assert(extents@[i] == record_extent(records@[i]));
            }
        }
        Ok(
            AppendPublishPlan {
                ticket: *ticket,
                stream,
                old_head,
                new_head,
                new_keyspace_shard: new_shard,
                commit_group: group,
                keyspace_commit: KeyspaceCommit {
                    commit_seq: seq,
                    commit_group: group,
                    time: LogicalTime(seq.0),
                    keyspace_id: ticket.keyspace_id,
                    shard_index: index as u32,
                    old_shard,
                    new_shard,
                    old_file_count: file_count,
                    new_file_count: file_count,
                },
                file_commit: FileCommit {
                    commit_seq: seq,
                    commit_group: group,
                    time: LogicalTime(seq.0),
                    keyspace_id: ticket.keyspace_id,
                    file_id: ticket.file_id,
                    old_root: Some(old_head.root),
                    new_root,
                    old_version: Some(old_head.version),
                    new_version: new_head.version,
                    old_size: old_head.size,
                    new_size: ticket.publish_through,
                },
                commit: AppendPublishCommit {
                    keyspace_id: ticket.keyspace_id,
                    file_id: ticket.file_id,
                    range,
                    version: new_head.version,
                    commit_seq: seq,
                    durability,
                },
                publish_range: range,
                payload_persist_start,
                visible_publish: AppendVisiblePublish {
                    record_id: ticket.ticket_id,
                    commit_seq: seq,
                    keyspace_id: ticket.keyspace_id,
                    file_id: ticket.file_id,
                    base_writer_epoch: base_epoch,
                    writer_epoch: ticket.writer_epoch,
                    base_file_version: old_head.version,
                    new_file_version: new_head.version,
                    old_size: old_head.size,
                    new_size: ticket.publish_through,
                    publish_through: ticket.publish_through,
                    run_extents: extents,
                },
                in_flight,
            },
        )
    }

    /// Takes a prepared publish back.
    pub fn cancel_append_publish_plan(&mut self, plan: &AppendPublishPlan)
        requires
            old(self).wf(),
        ensures
            final(self).wf(),
            final(self).metadata.append_publish_in_flight@ == if old(
                self,
            ).metadata.append_publish_in_flight@.contains_key(plan.ticket.ticket_id.0) && old(
                self,
            ).metadata.append_publish_in_flight@[plan.ticket.ticket_id.0] == plan.in_flight {
                old(self).metadata.append_publish_in_flight@.remove(plan.ticket.ticket_id.0)
            } else {
                old(self).metadata.append_publish_in_flight@
            },
            *final(self) == (LocalCoordinator {
                metadata: MetadataInner {
                    append_publish_in_flight: final(self).metadata.append_publish_in_flight,
                    ..old(self).metadata
                },
                ..*old(self)
            }),
    {
        let same = match self.metadata.append_publish_in_flight.get(plan.ticket.ticket_id.raw()) {
            Some(current) => *current == plan.in_flight,
            None => false,
        };
        if same {
            self.metadata.append_publish_in_flight.remove(plan.ticket.ticket_id.raw());
        }
        proof {
            assert(self.metadata.devices_wf(self.block_size()));
            assert(self.metadata.files_wf(self.block_size()));
        }
    }
}

pub proof fn lemma_catalog_head_wf(
    metadata: MetadataInner,
    roots: Seq<KeyspaceCatalogShardId>,
    file_id: FileId,
    block_size: u64,
)
    requires
        metadata.files_wf(block_size),
        catalog_roots_wf(metadata.keyspace_catalog_shards@, roots),
        catalog_head(metadata.keyspace_catalog_shards@, roots, file_id) is Some,
    ensures
        ({
            let head = catalog_head(metadata.keyspace_catalog_shards@, roots, file_id)->0;
            &&& head.file_id == file_id
            &&& metadata.nodes().contains_key(head.root.0)
            &&& metadata.nodes()[head.root.0].covered_range.start.0 == 0
            &&& head.size <= metadata.nodes()[head.root.0].covered_range.end() * block_size
        }),
{
    let shard = roots[catalog_index(file_id, roots.len() as int)].0;
    let shards = metadata.keyspace_catalog_shards@;
    assert(shards.contains_key(shard));
    assert(catalog_shard_wf(metadata.nodes(), shards[shard], block_size, metadata.next_file_id));
    assert(file_wf(
        metadata.nodes(),
        shards[shard].files@[file_id.0],
        file_id.0,
        block_size,
        metadata.next_file_id,
    ));
}

/// The tree of a plan leads to the bytes of its stream.
proof fn lemma_plan_bytes(
    before: LocalCoordinator,
    after: LocalCoordinator,
    root: MetadataNodeId,
    new_root: MetadataNodeId,
    range: ByteRange,
    records: Seq<AppendStreamRunRecord>,
    stream_id: AppendStreamId,
)
    requires
        tree_with_runs(before, after, root, new_root, range, extents_of(records)),
        after.logs() == before.logs(),
        range.end() <= before.nodes()[root.0].covered_range.end() * before.block_size(),
        crate::metadata::records_contiguous(records, range.offset as int, range.end()),
        forall|i: int|
            0 <= i < records.len() ==> crate::metadata::stream_record_wf(
                before.logs(),
                #[trigger] records[i],
            ),
        forall|byte: int|
            range.offset <= byte < range.end() ==> #[trigger] records_byte(
                before.logs(),
                records,
                byte,
            ) == before.stream_byte(stream_id, byte),
    ensures
        forall|byte: int|
            range.contains(byte) ==> #[trigger] tree_byte(
                after.nodes(),
                after.segments(),
                after.logs(),
                new_root,
                after.block_size(),
                byte,
            ) == before.stream_byte(stream_id, byte)->0,
{
    lemma_record_extents(before.logs(), records, range.offset as int, range.end());
    assert forall|byte: int| range.contains(byte) implies #[trigger] tree_byte(
        after.nodes(),
        after.segments(),
        after.logs(),
        new_root,
        after.block_size(),
        byte,
    ) == before.stream_byte(stream_id, byte)->0 by {
        assert(extent_at(extents_of(records), byte) is Some);
        assert(records_byte(before.logs(), records, byte) == before.stream_byte(stream_id, byte));
    }
}

proof fn lemma_extents_fill(
    logs: RunLogMap,
    records: Seq<crate::metadata_records::AppendStreamRunRecord>,
    start: int,
    end: int,
)
    requires
        crate::metadata::records_contiguous(records, start, end),
        forall|i: int|
            0 <= i < records.len() ==> crate::metadata::stream_record_wf(
                logs,
                #[trigger] records[i],
            ),
        start < end,
    ensures
        extents_fill(extents_of(records), start, end),
{
    let extents = extents_of(records);
    assert forall|i: int| 0 <= i < extents.len() implies (#[trigger] extents[i]).wf() by {
        assert(crate::metadata::stream_record_wf(logs, records[i]));
    }
    assert forall|i: int, j: int| 0 <= i && j == i + 1 && j < extents.len() implies (
    #[trigger] extents[i]).range().end() == (#[trigger] extents[j]).file_offset_start by {
        assert(records[i].offset + records[i].len == records[j].offset);
    }
    assert(extents.last() == crate::metadata_streams::record_extent(records.last()));
}

} // verus!
