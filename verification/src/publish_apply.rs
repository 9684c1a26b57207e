//! Applying prepared publishes, and making recorded ones visible again.
use vstd::prelude::*;

use crate::append_publish::tree_with_runs;
use crate::block_api::ByteRange;
use crate::coordinator::LocalCoordinator;
use crate::error::StorageError;
use crate::id::{
    CommitGroupId, CommitSeq, FileId, KeyspaceCatalogShardId, KeyspaceId, LogicalTime, WriterEpoch,
};
use crate::idmap::{IdMap, is_walk};
use crate::metadata::{AppendPublishTicketRecord, MetadataInner};
use crate::metadata_files::{
    catalog_index, file_commit_of, group_added, lemma_keeps_all_inserted, stream_is_of,
};
use crate::metadata_records::{
    CommitGroup, FileCommit, FileHead, KeyspaceCommit, MappingOwner, RootUpdate,
    RunBackedFileExtent,
};
use crate::metadata_streams::{epoch_of, file_epoch, published_stream, set_epoch, token_open};
use crate::native_api::AppendPublishCommit;
use crate::publish_plan::{
    AppendPublishPlan, AppendVisiblePublish, append_visible_publish_already_materialized,
    file_commit_behind, file_commit_place, keyspace_commit_place, lemma_fill_wf,
};
use crate::read_plan::{run_backed, runs_backed};
use crate::run_logs::AppendRunLogs;
use crate::tree::copy_vec;

verus! {

/// Whether some commit group has a sequence number.
pub open spec fn seq_committed(groups: Map<u128, CommitGroup>, seq: CommitSeq) -> bool {
    exists|id: u128| #[trigger] groups.contains_key(id) && groups[id].commit_seq == seq
}

fn is_seq_committed(groups: &IdMap<CommitGroup>, seq: CommitSeq) -> (found: bool)
    ensures
        found == seq_committed(groups@, seq),
{
    let count = groups.len();
    let ghost keys = groups.keys();
    let mut i: usize = 0;
    while i < count
        invariant
            i <= count,
            count == keys.len(),
            keys == groups.keys(),
            is_walk(keys, groups@),
            forall|k: int| 0 <= k < i ==> groups@[#[trigger] keys[k]].commit_seq != seq,
        decreases count - i,
    {
        let (id, group) = groups.entry_at(i);
        assert(keys[i as int] == id);
        if group.commit_seq.0 == seq.0 {
            assert(groups@.contains_key(id));
            return true;
        }
        i = i + 1;
    }
    proof {
        if seq_committed(groups@, seq) {
            let id = choose|id: u128| #[trigger]
                groups@.contains_key(id) && groups@[id].commit_seq == seq;
            assert(keys.contains(id));
            let k = choose|k: int| 0 <= k < keys.len() && keys[k] == id;
            assert(groups@[keys[k]].commit_seq != seq);
        }
    }
    false
}

/// Whether all extents are in the logs.
fn are_runs_backed(logs: &AppendRunLogs, extents: &Vec<RunBackedFileExtent>) -> (backed: bool)
    ensures
        backed == runs_backed(logs@, extents@),
{
    let mut i: usize = 0;
    while i < extents.len()
        invariant
            i <= extents@.len(),
            forall|k: int| 0 <= k < i ==> run_backed(logs@, #[trigger] extents@[k]),
        decreases extents@.len() - i,
    {
        let extent = extents[i];
        assert(extents@[i as int] == extent);
        if !logs.holds(
            extent.run.storage_node,
            extent.run.log_id,
            extent.run.log_payload_offset,
            extent.payload_len,
            extent.run.integrity,
        ) {
            assert(!run_backed(logs@, extents@[i as int]));
            return false;
        }
        i = i + 1;
    }
    true
}

/// Whether a keyspace's commit belongs behind a place in the history.
pub open spec fn keyspace_commit_behind(commit: KeyspaceCommit, seq: u64, shard_index: u32) -> bool {
    commit.commit_seq.0 > seq || (commit.commit_seq.0 == seq && commit.shard_index > shard_index)
}

/// Whether a commit stands where it belongs in a history, and the rest is as
/// it was.
pub open spec fn keyspace_commit_inserted(
    before: Seq<KeyspaceCommit>,
    after: Seq<KeyspaceCommit>,
    commit: KeyspaceCommit,
    place: int,
) -> bool {
    &&& 0 <= place <= before.len()
    &&& after == before.insert(place, commit)
    &&& forall|i: int|
        place <= i < before.len() ==> keyspace_commit_behind(
            #[trigger] before[i],
            commit.commit_seq.0,
            commit.shard_index,
        )
    &&& place > 0 ==> !keyspace_commit_behind(
        before[place - 1],
        commit.commit_seq.0,
        commit.shard_index,
    )
}

pub open spec fn file_commit_inserted(
    before: Seq<FileCommit>,
    after: Seq<FileCommit>,
    commit: FileCommit,
    place: int,
) -> bool {
    &&& 0 <= place <= before.len()
    &&& after == before.insert(place, commit)
    &&& forall|i: int|
        place <= i < before.len() ==> file_commit_behind(
            #[trigger] before[i],
            commit.commit_seq.0,
            commit.keyspace_id.0,
            commit.file_id.0,
        )
    &&& place > 0 ==> !file_commit_behind(
        before[place - 1],
        commit.commit_seq.0,
        commit.keyspace_id.0,
        commit.file_id.0,
    )
}

impl MetadataInner {
    /// Whether a commit of a file is on record: in the histories of its keyspace
    /// and of the files, where it belongs, and as a commit group.
    pub open spec fn commit_inserted(
        &self,
        before: &MetadataInner,
        keyspace_commit: KeyspaceCommit,
        file_commit: FileCommit,
        group: CommitGroupId,
    ) -> bool {
        &&& exists|place: int| #[trigger]
            keyspace_commit_inserted(
                before.keyspace_commits@,
                self.keyspace_commits@,
                keyspace_commit,
                place,
            )
        &&& exists|place: int| #[trigger]
            file_commit_inserted(
                before.file_commits@,
                self.file_commits@,
                file_commit,
                place,
            )
        &&& group_added(
            before.commit_groups@,
            self.commit_groups@,
            group,
            file_commit.commit_seq,
            file_commit.keyspace_id,
            match file_commit.old_root {
                Some(old_root) => RootUpdate::FileRoot {
                    file_id: file_commit.file_id,
                    old_root,
                    new_root: file_commit.new_root,
                    new_size: file_commit.new_size,
                },
                None => RootUpdate::FileCreated {
                    file_id: file_commit.file_id,
                    new_root: file_commit.new_root,
                    new_size: file_commit.new_size,
                },
            },
        )
    }

    /// Records the commit of a file that was published.
    fn record_file_commit(
        &mut self,
        keyspace_commit: KeyspaceCommit,
        file_commit: FileCommit,
        group: CommitGroupId,
    )
        ensures
            *final(self) == (MetadataInner {
                keyspace_commits: final(self).keyspace_commits,
                file_commits: final(self).file_commits,
                commit_groups: final(self).commit_groups,
                ..*old(self)
            }),
            final(self).commit_inserted(old(self), keyspace_commit, file_commit, group),
            final(self).records_kept(old(self)),
    {
        let ghost before = *self;
        let at = keyspace_commit_place(
            &self.keyspace_commits,
            keyspace_commit.commit_seq.0,
            keyspace_commit.shard_index,
        );
        self.keyspace_commits.insert(at, keyspace_commit);
        let place = file_commit_place(
            &self.file_commits,
            file_commit.commit_seq.0,
            file_commit.keyspace_id.0,
            file_commit.file_id.0,
        );
        self.file_commits.insert(place, file_commit);
        let mut updates: Vec<RootUpdate> = Vec::new();
        match file_commit.old_root {
            Some(old_root) => {
                updates.push(
                    RootUpdate::FileRoot {
                        file_id: file_commit.file_id,
                        old_root,
                        new_root: file_commit.new_root,
                        new_size: file_commit.new_size,
                    },
                );
            },
            None => {
                updates.push(
                    RootUpdate::FileCreated {
                        file_id: file_commit.file_id,
                        new_root: file_commit.new_root,
                        new_size: file_commit.new_size,
                    },
                );
            },
        }
        self.commit_groups.insert(
            group.raw(),
            CommitGroup {
                commit_group: group,
                commit_seq: file_commit.commit_seq,
                owner: MappingOwner::NativeKeyspace(file_commit.keyspace_id),
                updates,
            },
        );
        proof {
            assert(keyspace_commit_inserted(
                before.keyspace_commits@,
                self.keyspace_commits@,
                keyspace_commit,
                at as int,
            ));
            assert(file_commit_inserted(
                before.file_commits@,
                self.file_commits@,
                file_commit,
                place as int,
            ));
            assert(self.commit_groups@.remove(group.0) =~= before.commit_groups@.remove(group.0));
            assert(self.commit_groups@[group.0].updates@.len() == 1);
            assert(self.commit_groups@[group.0].updates@ =~= seq![
                self.commit_groups@[group.0].updates@[0],
            ]);
            lemma_keeps_all_inserted(before.keyspace_commits@, at as int, keyspace_commit);
            lemma_keeps_all_inserted(before.file_commits@, place as int, file_commit);
        }
    }
}

impl AppendPublishPlan {
    /// The record of the keyspace's commit, with as many files as the keyspace
    /// has when the plan is applied.
    pub open spec fn keyspace_commit_now(self, metadata: &MetadataInner) -> KeyspaceCommit {
        KeyspaceCommit {
            old_file_count: metadata.keyspace_heads@[self.ticket.keyspace_id.0].file_count,
            new_file_count: metadata.keyspace_heads@[self.ticket.keyspace_id.0].file_count,
            ..self.keyspace_commit
        }
    }
}

impl LocalCoordinator {
    /// Whether a prepared publish can be applied.
    pub open spec fn takes_plan(&self, plan: AppendPublishPlan) -> bool {
        let (k, f) = (plan.ticket.keyspace_id, plan.ticket.file_id);
        let index = plan.keyspace_commit.shard_index as int;
        &&& plan.consistent()
        &&& self.metadata.append_publish_tickets@.contains_key(plan.ticket.ticket_id.0)
        &&& self.metadata.append_publish_tickets@[plan.ticket.ticket_id.0].ticket == plan.ticket
        &&& self.metadata.append_publish_tickets@[plan.ticket.ticket_id.0].completed is None
        &&& self.metadata.append_publish_in_flight@.contains_key(plan.ticket.ticket_id.0)
        &&& self.metadata.append_publish_in_flight@[plan.ticket.ticket_id.0] == plan.in_flight
        &&& self.metadata.file_head(k, f) == Some(plan.old_head)
        &&& token_open(self.metadata.append_streams@, plan.stream)
        &&& self.metadata.append_streams@[plan.stream.stream_id.0].state.published_through
            == plan.old_head.size
        &&& plan.ticket.publish_through <= self.metadata.append_streams@[
            plan.stream.stream_id.0
        ].accepted_tail
        &&& plan.old_head.size <= plan.ticket.publish_through
        &&& index < self.metadata.catalog_of(k).len()
        &&& self.metadata.catalog_of(k)[index] == plan.keyspace_commit.old_shard
        &&& index == crate::metadata_files::catalog_index(
            plan.new_head.file_id,
            self.metadata.catalog_of(k).len() as int,
        )
        &&& self.metadata.keyspace_heads@[k.0].generation.0 < u64::MAX
    }

    /// Applies a prepared publish: the file shows it from now on.
    #[verifier::rlimit(80)]
    pub fn apply_append_publish_plan(&mut self, plan: &AppendPublishPlan) -> (result: Result<
        AppendPublishCommit,
        StorageError,
    >)
        requires
            old(self).wf(),
            plan.staged(old(self).metadata.keyspace_catalog_shards@),
        ensures
            final(self).only_file_changed(
                old(self),
                plan.ticket.keyspace_id,
                plan.ticket.file_id,
            ),
            result is Ok <==> old(self).takes_plan(*plan),
            result matches Ok(commit) ==> {
                &&& commit == plan.commit
                &&& final(self).metadata.file_head(
                    plan.ticket.keyspace_id,
                    plan.ticket.file_id,
                ) == Some(plan.new_head)
                &&& final(self).metadata.append_publish_tickets@ == old(
                    self,
                ).metadata.append_publish_tickets@.insert(
                    plan.ticket.ticket_id.0,
                    AppendPublishTicketRecord {
                        ticket: plan.ticket,
                        stream: plan.stream,
                        completed: Some(plan.commit),
                    },
                )
                &&& final(self).metadata.append_streams@.remove(plan.stream.stream_id.0) == old(
                    self,
                ).metadata.append_streams@.remove(plan.stream.stream_id.0)
                &&& final(self).metadata.commit_inserted(
                    &old(self).metadata,
                    plan.keyspace_commit_now(&old(self).metadata),
                    plan.file_commit,
                    plan.commit_group,
                )
                &&& old(self).metadata.shard_settled(
                    plan.ticket.keyspace_id,
                    plan.keyspace_commit.shard_index,
                    plan.commit.commit_seq,
                ) ==> final(self).metadata.catalogs_kept_until(
                    &old(self).metadata,
                    plan.commit.commit_seq.0,
                )
                &&& final(self).metadata.append_publish_in_flight@ == old(
                    self,
                ).metadata.append_publish_in_flight@.remove(plan.ticket.ticket_id.0)
                &&& published_stream(
                    old(self).metadata.append_streams@[plan.stream.stream_id.0],
                    final(self).metadata.append_streams@[plan.stream.stream_id.0],
                    old(self).logs(),
                    plan.ticket.publish_through,
                )
                &&& file_epoch(
                    final(self).metadata.file_writer_epochs@,
                    plan.ticket.keyspace_id,
                    plan.ticket.file_id,
                ) == plan.ticket.writer_epoch.0
            },
            result is Err ==> *final(self) == *old(self),
    {
        let ghost before = *self;
        proof {
            before.metadata.lemma_own_records();
        }
        let ghost bs = before.block_size();
        let keyspace_id = plan.ticket.keyspace_id;
        let file_id = plan.ticket.file_id;
        let id = plan.ticket.ticket_id.raw();
        if plan.in_flight.publish_through <= plan.old_head.size {
            return Err(StorageError::corrupt("append publish plan range underflows"));
        }
        let expected: u64 = plan.in_flight.publish_through - plan.old_head.size;
        if plan.publish_range.offset != plan.old_head.size || plan.publish_range.len != expected
            || plan.new_head.root.0 != plan.file_commit.new_root.0 || plan.new_head.size
            != plan.file_commit.new_size || plan.new_head.version.0
            != plan.file_commit.new_version.0 || plan.new_head.latest_commit.0
            != plan.commit.commit_seq.0 || plan.in_flight.old_root.0 != plan.old_head.root.0
            || plan.in_flight.old_size != plan.old_head.size {
            return Err(StorageError::corrupt("append publish plan range is invalid"));
        }
        match self.metadata.append_publish_ticket_status(&plan.ticket) {
            Ok(record) => {
                if record.completed.is_some() {
                    return Err(StorageError::conflict("stale append publish ticket"));
                }
            },
            Err(error) => return Err(error),
        }
        match self.metadata.append_publish_in_flight.get(id) {
            Some(current) => {
                if *current != plan.in_flight {
                    return Err(
                        StorageError::corrupt("prepared append publish in-flight marker changed"),
                    );
                }
            },
            None => return Err(
                StorageError::corrupt("prepared append publish is not in flight"),
            ),
        }
        assert(self.metadata.files_wf(bs));
        let current = match self.metadata.get_file_head(keyspace_id, file_id) {
            Ok(current) => current,
            Err(error) => return Err(error),
        };
        if current != plan.old_head {
            return Err(
                StorageError::corrupt("prepared append publish file head changed before apply"),
            );
        }
        let stream_state = match self.metadata.append_streams.get(plan.stream.stream_id.raw()) {
            Some(stream) => (stream.state.published_through, stream.accepted_tail),
            None => return Err(StorageError::conflict("stale append stream")),
        };
        if stream_state.0 != plan.old_head.size {
            return Err(
                StorageError::corrupt("prepared append publish stream state changed before apply"),
            );
        }
        if !self.metadata.is_token_open(&plan.stream) || plan.ticket.publish_through
            < stream_state.0 || plan.ticket.publish_through > stream_state.1 {
            return Err(StorageError::conflict("stale append stream"));
        }
        let file_count: usize = match self.metadata.keyspace_heads.get(keyspace_id.raw()) {
            Some(keyspace) => keyspace.file_count,
            None => return Err(StorageError::not_found("keyspace", keyspace_id.raw())),
        };
        let index: usize = plan.keyspace_commit.shard_index as usize;
        let linked = self.metadata.link_shard(
            keyspace_id,
            index,
            plan.keyspace_commit.old_shard,
            plan.new_keyspace_shard,
            plan.new_head,
            plan.commit.commit_seq,
            Ghost(bs),
        );
        match linked {
            Ok(()) => {},
            Err(error) => {
                return Err(error);
            },
        }
        let ghost middle = *self;
        match self.metadata.mark_append_stream_published(
            &plan.stream,
            plan.ticket.publish_through,
            Ghost(before.logs()),
        ) {
            Ok(()) => {},
            Err(error) => {
                assert(false);
                return Err(error);
            },
        }
        let keyspace_commit = KeyspaceCommit {
            old_file_count: file_count,
            new_file_count: file_count,
            ..plan.keyspace_commit
        };
        let ghost marked = *self;
        self.metadata.record_file_commit(keyspace_commit, plan.file_commit, plan.commit_group);
        proof {
            if before.metadata.shard_settled(
                keyspace_id,
                keyspace_commit.shard_index,
                keyspace_commit.commit_seq,
            ) {
                let place = choose|place: int| #[trigger]
                    keyspace_commit_inserted(
                        before.metadata.keyspace_commits@,
                        self.metadata.keyspace_commits@,
                        keyspace_commit,
                        place,
                    );
                assert forall|i: int|
                    place <= i < before.metadata.keyspace_commits@.len() implies (
                #[trigger] before.metadata.keyspace_commits@[i]).commit_seq.0
                    >= keyspace_commit.commit_seq.0 by {
                    assert(keyspace_commit_behind(
                        before.metadata.keyspace_commits@[i],
                        keyspace_commit.commit_seq.0,
                        keyspace_commit.shard_index,
                    ));
                }
                self.metadata.lemma_inserted_commit_keeps_catalogs(
                    &before.metadata,
                    keyspace_commit,
                    place,
                );
            }
        }
        let ghost committed = *self;
        set_epoch(
            &mut self.metadata.file_writer_epochs,
            keyspace_id,
            file_id,
            plan.ticket.writer_epoch,
        );
        self.metadata.append_publish_in_flight.remove(id);
        self.metadata.append_publish_tickets.insert(
            id,
            AppendPublishTicketRecord {
                ticket: plan.ticket,
                stream: plan.stream,
                completed: Some(plan.commit),
            },
        );
        proof {
            reveal(MetadataInner::catalogs_kept_until);
            assert forall|k: KeyspaceId, at: u64| #[trigger] self.metadata.catalog_then(k, at)
                == committed.metadata.catalog_then(k, at) by {}
            assert(self.metadata.append_publish_tickets@
                =~= before.metadata.append_publish_tickets@.insert(
                id,
                AppendPublishTicketRecord {
                    ticket: plan.ticket,
                    stream: plan.stream,
                    completed: Some(plan.commit),
                },
            ));
            assert(self.metadata.devices_wf(bs));
            assert(self.metadata.files_wf(bs));
            assert(self.wf());
            assert(self.metadata.append_streams@ == marked.metadata.append_streams@);
            assert(published_stream(
                before.metadata.append_streams@[plan.stream.stream_id.0],
                self.metadata.append_streams@[plan.stream.stream_id.0],
                before.logs(),
                plan.ticket.publish_through,
            ));
            assert(marked.metadata.keyspace_commits == before.metadata.keyspace_commits);
            assert(marked.metadata.file_commits == before.metadata.file_commits);
            assert(marked.metadata.commit_groups == before.metadata.commit_groups);
            assert(committed.metadata.commit_inserted(
                &before.metadata,
                keyspace_commit,
                plan.file_commit,
                plan.commit_group,
            ));
            assert(self.metadata.keyspace_commits == committed.metadata.keyspace_commits);
            assert(self.metadata.file_commits == committed.metadata.file_commits);
            assert(self.metadata.commit_groups == committed.metadata.commit_groups);
            assert(self.metadata.commit_inserted(
                &before.metadata,
                keyspace_commit,
                plan.file_commit,
                plan.commit_group,
            ));
            assert forall|id: u128| #[trigger]
                before.metadata.append_streams@.contains_key(id) && !stream_is_of(
                    before.metadata.append_streams@[id],
                    keyspace_id,
                    file_id,
                ) implies self.metadata.append_streams@[id]
                == before.metadata.append_streams@[id] by {
                assert(token_open(before.metadata.append_streams@, plan.stream));
                assert(id != plan.stream.stream_id.0);
                assert(self.metadata.append_streams@.remove(plan.stream.stream_id.0)[id]
                    == before.metadata.append_streams@.remove(plan.stream.stream_id.0)[id]);
            }
            assert(self.metadata.file_head(keyspace_id, file_id)
                == middle.metadata.file_head(keyspace_id, file_id));
            assert forall|k: KeyspaceId, f: FileId|
                (k != keyspace_id || f != file_id) && before.metadata.has_keyspace(
                    k,
                ) implies #[trigger] self.metadata.file_head(k, f) == before.metadata.file_head(
                k,
                f,
            ) by {
                assert(middle.metadata.file_head(k, f) == before.metadata.file_head(k, f));
            }
        }
        Ok(plan.commit)
    }
}

impl AppendVisiblePublish {
    /// The record of the keyspace's commit that a recorded publish stands for.
    pub open spec fn keyspace_commit_then(self, metadata: &MetadataInner) -> KeyspaceCommit {
        let roots = metadata.catalog_of(self.keyspace_id);
        let index = catalog_index(self.file_id, roots.len() as int);
        KeyspaceCommit {
            commit_seq: self.commit_seq,
            commit_group: CommitGroupId(metadata.next_commit_group_id),
            time: LogicalTime(self.commit_seq.0),
            keyspace_id: self.keyspace_id,
            shard_index: index as u32,
            old_shard: roots[index],
            new_shard: KeyspaceCatalogShardId(metadata.next_keyspace_catalog_shard_id),
            old_file_count: metadata.keyspace_heads@[self.keyspace_id.0].file_count,
            new_file_count: metadata.keyspace_heads@[self.keyspace_id.0].file_count,
        }
    }
}

impl LocalCoordinator {
    /// Whether a recorded publish can be made visible.
    pub open spec fn takes_visible_publish(&self, record: AppendVisiblePublish) -> bool {
        let head = self.metadata.file_head(record.keyspace_id, record.file_id)->0;
        &&& record.valid()
        &&& self.metadata.has_file(record.keyspace_id, record.file_id)
        &&& !record.shown_by(head) ==> {
            &&& record.follows(
                head,
                file_epoch(
                    self.metadata.file_writer_epochs@,
                    record.keyspace_id,
                    record.file_id,
                ),
            )
            &&& runs_backed(self.logs(), record.run_extents@)
            &&& record.new_size <= self.file_limit(record.keyspace_id, record.file_id)
            &&& !seq_committed(self.metadata.commit_groups@, record.commit_seq)
            &&& record.commit_seq.0 < u64::MAX
        }
    }

    /// Makes a publish visible that was recorded before its metadata was.
    #[verifier::rlimit(80)]
    pub fn materialize_append_visible_publish_record(&mut self, record: &AppendVisiblePublish)
        -> (result: Result<(), StorageError>)
        requires
            old(self).wf(),
        ensures
            final(self).only_file_changed(old(self), record.keyspace_id, record.file_id),
            result is Ok ==> record.valid() && old(self).metadata.has_file(
                record.keyspace_id,
                record.file_id,
            ),
            result is Ok && record.shown_by(
                old(self).metadata.file_head(record.keyspace_id, record.file_id)->0,
            ) ==> *final(self) == *old(self),
            result is Ok && !record.shown_by(
                old(self).metadata.file_head(record.keyspace_id, record.file_id)->0,
            ) ==> {
                let head = old(self).metadata.file_head(record.keyspace_id, record.file_id)->0;
                let new_head = final(self).metadata.file_head(
                    record.keyspace_id,
                    record.file_id,
                )->0;
                &&& record.follows(
                    head,
                    file_epoch(
                        old(self).metadata.file_writer_epochs@,
                        record.keyspace_id,
                        record.file_id,
                    ),
                )
                &&& final(self).metadata.has_file(record.keyspace_id, record.file_id)
                &&& record.shown_by(new_head)
                &&& new_head == (FileHead {
                    file_id: record.file_id,
                    version: record.new_file_version,
                    root: new_head.root,
                    size: record.new_size,
                    latest_commit: record.commit_seq,
                })
                &&& tree_with_runs(
                    *old(self),
                    *final(self),
                    head.root,
                    new_head.root,
                    ByteRange {
                        offset: head.size,
                        len: (record.new_size - head.size) as u64,
                    },
                    record.run_extents@,
                )
                &&& final(self).metadata.commit_inserted(
                    &old(self).metadata,
                    record.keyspace_commit_then(&old(self).metadata),
                    file_commit_of(
                        CommitGroupId(old(self).metadata.next_commit_group_id),
                        record.keyspace_id,
                        head,
                        new_head,
                    ),
                    CommitGroupId(old(self).metadata.next_commit_group_id),
                )
                &&& old(self).metadata.shard_settled(
                    record.keyspace_id,
                    record.keyspace_commit_then(&old(self).metadata).shard_index,
                    record.commit_seq,
                ) ==> final(self).metadata.catalogs_kept_until(
                    &old(self).metadata,
                    record.commit_seq.0,
                )
                &&& file_epoch(
                    final(self).metadata.file_writer_epochs@,
                    record.keyspace_id,
                    record.file_id,
                ) == if record.writer_epoch.0 > file_epoch(
                    old(self).metadata.file_writer_epochs@,
                    record.keyspace_id,
                    record.file_id,
                ) {
                    record.writer_epoch.0
                } else {
                    file_epoch(
                        old(self).metadata.file_writer_epochs@,
                        record.keyspace_id,
                        record.file_id,
                    )
                }
                &&& final(self).metadata.next_commit_seq == if record.commit_seq.0 + 1 > old(
                    self,
                ).metadata.next_commit_seq {
                    record.commit_seq.0 + 1
                } else {
                    old(self).metadata.next_commit_seq as int
                }
            },
            old(self).takes_visible_publish(*record) && old(self).file_room(
                record.keyspace_id,
                record.file_id,
            ) ==> result is Ok,
            result is Err ==> final(self).metadata.file_head(record.keyspace_id, record.file_id)
                == old(self).metadata.file_head(record.keyspace_id, record.file_id)
                && final(self).metadata.next_commit_seq == old(self).metadata.next_commit_seq,
            final(self).storage_nodes == old(self).storage_nodes,
            final(self).append_run_logs == old(self).append_run_logs,
            !record.valid() ==> (result matches Err(error) && error is Corrupt),
    {
        let ghost before = *self;
        proof {
            before.metadata.lemma_own_records();
        }
        let bs: u64 = self.config.block_size as u64;
        let keyspace_id = record.keyspace_id;
        let file_id = record.file_id;
        match record.validate() {
            Ok(()) => {},
            Err(error) => return Err(error),
        }
        assert(self.metadata.files_wf(bs));
        let head = match self.metadata.get_file_head(keyspace_id, file_id) {
            Ok(head) => head,
            Err(error) => return Err(error),
        };
        proof {
            self.metadata.lemma_file_wf(keyspace_id, file_id, bs);
            lemma_fill_wf(
                record.run_extents@,
                record.old_size as int,
                record.new_size as int,
            );
        }
        if append_visible_publish_already_materialized(&head, record) {
            return Ok(());
        }
        let epoch = epoch_of(&self.metadata.file_writer_epochs, keyspace_id, file_id);
        match record.validate_for_reconstructed_head(&head, epoch) {
            Ok(()) => {},
            Err(error) => return Err(error),
        }
        if is_seq_committed(&self.metadata.commit_groups, record.commit_seq) {
            return Err(
                StorageError::corrupt("append visible publish commit sequence already exists"),
            );
        }
        if record.commit_seq.0 == u64::MAX {
            return Err(StorageError::conflict("commit sequence overflow"));
        }
        if self.metadata.next_commit_group_id == u128::MAX {
            return Err(StorageError::conflict("commit group id overflow"));
        }
        if !are_runs_backed(&self.append_run_logs, &record.run_extents) {
            return Err(StorageError::corrupt("append visible publish payload is missing"));
        }
        let covered = match self.metadata.trees.nodes.get(head.root.raw()) {
            Some(node) => node.covered_range,
            None => return Err(StorageError::not_found("metadata_node", head.root.raw())),
        };
        proof {
            assert(crate::tree::node_wf(self.nodes(), head.root.0, bs));
            assert(covered.end() <= u64::MAX) by (nonlinear_arith)
                requires
                    covered.end() * bs <= u64::MAX,
                    bs >= 1,
                    covered.end() >= 0,
            ;
        }
        if record.new_size > (covered.start.0 + covered.blocks.0) * bs {
            return Err(StorageError::invalid_argument("file size exceeds file root coverage"));
        }
        let (roots, generation, file_count) = match self.metadata.keyspace_heads.get(
            keyspace_id.raw(),
        ) {
            Some(keyspace) => (
                copy_vec(&keyspace.shard_roots),
                keyspace.generation,
                keyspace.file_count,
            ),
            None => return Err(StorageError::not_found("keyspace", keyspace_id.raw())),
        };
        assert(self.metadata.keyspace_heads@.contains_key(keyspace_id.0));
        if generation.0 == u64::MAX {
            return Err(StorageError::conflict("keyspace generation overflow"));
        }
        let range = ByteRange { offset: head.size, len: record.new_size - head.size };
        let put = self.put_runs(head.root, range, &record.run_extents);
        let ghost middle = *self;
        proof {
            assert forall|k: KeyspaceId, f: FileId| #[trigger] middle.metadata.file_head(k, f)
                == before.metadata.file_head(k, f) by {}
        }
        let new_root = match put {
            Ok(new_root) => new_root,
            Err(error) => return Err(error),
        };
        let new_head = FileHead {
            file_id,
            version: record.new_file_version,
            root: new_root,
            size: record.new_size,
            latest_commit: record.commit_seq,
        };
        assert(self.metadata.files_wf(bs));
        let staged = self.metadata.stage_file(&roots, new_head, Ghost(bs));
        let ghost staged_state = *self;
        proof {
            assert(self.metadata.devices_wf(bs));
            assert(self.wf());
            assert forall|k: KeyspaceId, f: FileId| #[trigger] staged_state.metadata.file_head(k, f)
                == before.metadata.file_head(k, f) by {
                assert(middle.metadata.file_head(k, f) == before.metadata.file_head(k, f));
            }
        }
        let (index, old_shard, new_shard) = match staged {
            Ok(staged) => staged,
            Err(error) => return Err(error),
        };
        match self.metadata.link_shard(
            keyspace_id,
            index,
            old_shard,
            new_shard,
            new_head,
            record.commit_seq,
            Ghost(bs),
        ) {
            Ok(()) => {},
            Err(error) => {
                assert(false);
                return Err(error);
            },
        }
        let ghost linked = *self;
        let group = CommitGroupId(self.metadata.next_commit_group_id);
        self.metadata.next_commit_group_id = self.metadata.next_commit_group_id + 1;
        if record.commit_seq.0 + 1 > self.metadata.next_commit_seq {
            self.metadata.next_commit_seq = record.commit_seq.0 + 1;
        }
        self.metadata.record_file_commit(
            KeyspaceCommit {
                commit_seq: record.commit_seq,
                commit_group: group,
                time: LogicalTime(record.commit_seq.0),
                keyspace_id,
                shard_index: index as u32,
                old_shard,
                new_shard,
                old_file_count: file_count,
                new_file_count: file_count,
            },
            FileCommit {
                commit_seq: record.commit_seq,
                commit_group: group,
                time: LogicalTime(record.commit_seq.0),
                keyspace_id,
                file_id,
                old_root: Some(head.root),
                new_root,
                old_version: Some(head.version),
                new_version: new_head.version,
                old_size: head.size,
                new_size: record.new_size,
            },
            group,
        );
        proof {
            let commit = record.keyspace_commit_then(&before.metadata);
            assert(record.shown_by(new_head));
            if before.metadata.shard_settled(keyspace_id, commit.shard_index, record.commit_seq) {
                let place = choose|place: int| #[trigger]
                    keyspace_commit_inserted(
                        before.metadata.keyspace_commits@,
                        self.metadata.keyspace_commits@,
                        commit,
                        place,
                    );
                assert forall|i: int|
                    place <= i < before.metadata.keyspace_commits@.len() implies (
                #[trigger] before.metadata.keyspace_commits@[i]).commit_seq.0
                    >= commit.commit_seq.0 by {
                    assert(keyspace_commit_behind(
                        before.metadata.keyspace_commits@[i],
                        commit.commit_seq.0,
                        commit.shard_index,
                    ));
                }
                if commit.shard_index == index {
                    self.metadata.lemma_inserted_commit_keeps_catalogs(
                        &before.metadata,
                        commit,
                        place,
                    );
                }
            }
        }
        let ghost committed = *self;
        let next_epoch = if record.writer_epoch.0 > epoch {
            record.writer_epoch
        } else {
            WriterEpoch(epoch)
        };
        set_epoch(&mut self.metadata.file_writer_epochs, keyspace_id, file_id, next_epoch);
        proof {
            reveal(MetadataInner::catalogs_kept_until);
            assert forall|k: KeyspaceId, at: u64| #[trigger] self.metadata.catalog_then(k, at)
                == committed.metadata.catalog_then(k, at) by {}
            assert(self.metadata.devices_wf(bs));
            assert(self.metadata.files_wf(bs));
            assert(self.wf());
            assert(self.metadata.file_head(keyspace_id, file_id)
                == linked.metadata.file_head(keyspace_id, file_id));
            assert forall|k: KeyspaceId, f: FileId|
                (k != keyspace_id || f != file_id) && before.metadata.has_keyspace(
                    k,
                ) implies #[trigger] self.metadata.file_head(k, f) == before.metadata.file_head(
                k,
                f,
            ) by {
                assert(staged_state.metadata.has_keyspace(k));
                assert(linked.metadata.file_head(k, f) == staged_state.metadata.file_head(k, f));
            }
        }
        Ok(())
    }
}

} // verus!
