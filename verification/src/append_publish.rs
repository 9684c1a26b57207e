//! Publishing what streams have taken in.
use vstd::prelude::*;

use crate::block_api::{ByteRange, WriteDurability};
use crate::coordinator::{LocalCoordinator, lemma_block_of_byte};
use crate::error::StorageError;
use crate::file_read::tree_byte;
use crate::id::{AppendPublishTicketId, FileId, KeyspaceId, MetadataNodeId};
use crate::leaf::{extent_at, extents_wf};
use crate::metadata::{
    AppendPublishTicketRecord, MetadataInner, lemma_catalog_kept, lemma_devices_kept,
};
use crate::metadata_files::{FileFence, stream_is_of};
use crate::metadata_records::{FileHead, RunBackedFileExtent};
use crate::metadata_streams::{
    extents_of, lemma_record_extents, published_stream, record_extents, records_byte, token_open,
};
use crate::native_api::{AppendPublishCommit, AppendPublishTicket, AppendStream};
use crate::observability::StorageEventKind;
use crate::read_plan::{runs_backed, tree_runs_backed};
use crate::tree::{block_at, edited, run_at};
use crate::tree_runs::{is_run_edited_tree, replace_tree_byte_range_with_run_extents};

verus! {

/// The tree of a file after extents were put into a range of it.
pub open spec fn tree_with_runs(
    before: LocalCoordinator,
    after: LocalCoordinator,
    root: MetadataNodeId,
    new_root: MetadataNodeId,
    range: ByteRange,
    extents: Seq<RunBackedFileExtent>,
) -> bool {
    let limit = before.nodes()[root.0].covered_range.end() * before.block_size();
    &&& after.nodes().contains_key(new_root.0)
    &&& after.nodes()[new_root.0].covered_range == before.nodes()[root.0].covered_range
    &&& forall|byte: int|
        0 <= byte < limit ==> #[trigger] tree_byte(
            after.nodes(),
            after.segments(),
            after.logs(),
            new_root,
            after.block_size(),
            byte,
        ) == if range.contains(byte) && extent_at(extents, byte) is Some {
            after.logs()[(
                extent_at(extents, byte)->0.storage_node,
                extent_at(extents, byte)->0.log_id,
            )][extent_at(extents, byte)->0.offset]
        } else if range.contains(byte) {
            crate::coordinator::segment_byte(
                before.segments(),
                block_at(before.nodes(), root.0, byte / before.block_size() as int),
                before.block_size(),
                byte,
            )
        } else {
            tree_byte(
                before.nodes(),
                before.segments(),
                before.logs(),
                root,
                before.block_size(),
                byte,
            )
        }
}

impl LocalCoordinator {
    /// Puts runs into a range of a file's tree.
    #[verifier::rlimit(60)]
    pub(crate) fn put_runs(
        &mut self,
        root: MetadataNodeId,
        range: ByteRange,
        extents: &Vec<RunBackedFileExtent>,
    ) -> (result: Result<MetadataNodeId, StorageError>)
        requires
            old(self).wf(),
            old(self).nodes().contains_key(root.0),
            old(self).nodes()[root.0].covered_range.start.0 == 0,
            range.end() <= u64::MAX,
            extents_wf(extents@, range.offset as int, range.end()),
            runs_backed(old(self).logs(), extents@),
        ensures
            final(self).wf(),
            final(self).keeps_store(old(self)),
            *final(self) == (LocalCoordinator { metadata: final(self).metadata, ..*old(self) }),
            final(self).metadata == (MetadataInner {
                trees: final(self).metadata.trees,
                ..old(self).metadata
            }),
            result matches Ok(new_root) ==> tree_with_runs(
                *old(self),
                *final(self),
                root,
                new_root,
                range,
                extents@,
            ),
            result is Err ==> !old(self).metadata.publish_room(),
            final(self).metadata.trees.next_metadata_node_id <= old(
                self,
            ).metadata.trees.next_metadata_node_id + usize::MAX,
    {
        let ghost before = *self;
        let bs: u64 = self.config.block_size as u64;
        let edited = replace_tree_byte_range_with_run_extents(
            &mut self.metadata.trees,
            &self.storage_nodes.segments,
            bs,
            root,
            range,
            extents,
        );
        proof {
            lemma_devices_kept(
                before.nodes(),
                self.nodes(),
                before.metadata.device_specs@,
                before.metadata.device_heads@,
                before.metadata.deleted_device_heads@,
                before.metadata.shard_commits@,
                before.metadata.checkpoints@,
                bs,
                before.metadata.next_device_id,
            );
            lemma_catalog_kept(
                before.nodes(),
                self.nodes(),
                self.metadata.keyspace_catalog_shards@,
                bs,
                self.metadata.next_file_id,
                self.metadata.next_keyspace_catalog_shard_id,
            );
            self.metadata.trees.lemma_few_new(&before.metadata.trees);
            assert(tree_runs_backed(self.nodes(), self.logs()));
            assert(self.metadata.files_wf(bs));
            assert(self.wf());
        }
        match edited {
            Ok(edit) => {
                proof {
                    let limit = before.nodes()[root.0].covered_range.end() * bs;
                    let new_root = edit.root;
                    assert(is_run_edited_tree(
                        before.nodes(),
                        self.nodes(),
                        bs,
                        root.0,
                        new_root.0,
                        range,
                        extents@,
                    ));
                    assert forall|byte: int| 0 <= byte < limit implies #[trigger] tree_byte(
                        self.nodes(),
                        self.segments(),
                        self.logs(),
                        new_root,
                        self.block_size(),
                        byte,
                    ) == (if range.contains(byte) && extent_at(extents@, byte) is Some {
                        self.logs()[(
                            extent_at(extents@, byte)->0.storage_node,
                            extent_at(extents@, byte)->0.log_id,
                        )][extent_at(extents@, byte)->0.offset]
                    } else if range.contains(byte) {
                        crate::coordinator::segment_byte(
                            before.segments(),
                            block_at(before.nodes(), root.0, byte / before.block_size() as int),
                            before.block_size(),
                            byte,
                        )
                    } else {
                        tree_byte(
                            before.nodes(),
                            before.segments(),
                            before.logs(),
                            root,
                            before.block_size(),
                            byte,
                        )
                    }) by {
                        let block = byte / bs as int;
                        lemma_block_of_byte(
                            byte,
                            before.nodes()[root.0].covered_range.end(),
                            bs,
                        );
                        assert(before.nodes()[root.0].covered_range.contains(block));
                        assert(block_at(self.nodes(), new_root.0, block) == block_at(
                            before.nodes(),
                            root.0,
                            block,
                        ));
                        assert(run_at(self.nodes(), new_root.0, bs, byte) == if range.contains(
                            byte,
                        ) {
                            extent_at(extents@, byte)
                        } else {
                            run_at(before.nodes(), root.0, bs, byte)
                        });
                    }
                }
                Ok(edit.root)
            },
            Err(error) => Err(error),
        }
    }

    /// Whether a file holds what it held, and behind it what a stream had taken
    /// in up to a place.
    pub open spec fn stream_published(
        &self,
        before: &LocalCoordinator,
        token: AppendStream,
        publish_through: u64,
    ) -> bool {
        let (k, f) = (token.keyspace_id, token.file_id);
        let size = before.file_size(k, f);
        &&& self.metadata.has_file(k, f)
        &&& self.file_size(k, f) == publish_through
        &&& self.file_limit(k, f) == before.file_limit(k, f)
        &&& publish_through <= self.file_limit(k, f)
        &&& forall|byte: int|
            0 <= byte < publish_through ==> #[trigger] self.file_byte(k, f, byte) == if byte
                < size {
                before.file_byte(k, f, byte)
            } else {
                before.stream_byte(token.stream_id, byte)->0
            }
        &&& before.clean_tail(k, f) ==> self.clean_tail(k, f)
    }

    /// Whether a pending publish can go through.
    pub open spec fn takes_publish(&self, ticket: AppendPublishTicket) -> bool {
        let record = self.metadata.append_publish_tickets@[ticket.ticket_id.0];
        let stream = self.metadata.append_streams@[record.stream.stream_id.0];
        let (k, f) = (ticket.keyspace_id, ticket.file_id);
        &&& self.metadata.append_publish_tickets@.contains_key(ticket.ticket_id.0)
        &&& record.ticket == ticket
        &&& record.completed is None
        &&& record.stream.keyspace_id == k
        &&& record.stream.file_id == f
        &&& record.stream.stream_id == ticket.stream_id
        &&& record.stream.writer_epoch == ticket.writer_epoch
        &&& token_open(self.metadata.append_streams@, record.stream)
        &&& self.metadata.has_file(k, f)
        &&& stream.state.published_through == self.file_size(k, f)
        &&& self.file_size(k, f) < ticket.publish_through <= stream.accepted_tail
        &&& ticket.publish_through <= self.file_limit(k, f)
    }

    /// Publishes what a ticket asks for; a ticket that is done gives the same
    /// answer again.
    #[verifier::rlimit(80)]
    pub fn wait_append_publish(
        &mut self,
        ticket: &AppendPublishTicket,
        durability: WriteDurability,
    ) -> (result: Result<AppendPublishCommit, StorageError>)
        requires
            old(self).wf(),
        ensures
            final(self).only_file_changed(old(self), ticket.keyspace_id, ticket.file_id),
            result is Ok ==> old(self).metadata.append_publish_tickets@.contains_key(
                ticket.ticket_id.0,
            ) && old(self).metadata.append_publish_tickets@[ticket.ticket_id.0].ticket == *ticket
                && final(self).metadata.append_publish_tickets@.contains_key(ticket.ticket_id.0),
            result matches Ok(commit) ==> final(self).metadata.append_publish_tickets@[
                ticket.ticket_id.0
            ] == (AppendPublishTicketRecord {
                ticket: *ticket,
                stream: old(self).metadata.append_publish_tickets@[ticket.ticket_id.0].stream,
                completed: Some(commit),
            }),
            final(self).metadata.catalogs_past_kept(&old(self).metadata),
            result matches Ok(commit) ==> (old(
                self,
            ).metadata.append_publish_tickets@[ticket.ticket_id.0].completed is Some
                ==> *final(self) == *old(self)),
            result matches Ok(commit) ==> (old(
                self,
            ).metadata.append_publish_tickets@[ticket.ticket_id.0].completed is None ==> {
                &&& final(self).stream_published(
                    old(self),
                    old(self).metadata.append_publish_tickets@[ticket.ticket_id.0].stream,
                    ticket.publish_through,
                )
                &&& commit == (AppendPublishCommit {
                    keyspace_id: ticket.keyspace_id,
                    file_id: ticket.file_id,
                    range: ByteRange {
                        offset: old(self).file_size(
                            ticket.keyspace_id,
                            ticket.file_id,
                        ) as u64,
                        len: (ticket.publish_through - old(self).file_size(
                            ticket.keyspace_id,
                            ticket.file_id,
                        )) as u64,
                    },
                    version: final(self).metadata.file_head(
                        ticket.keyspace_id,
                        ticket.file_id,
                    )->0.version,
                    commit_seq: final(self).metadata.file_head(
                        ticket.keyspace_id,
                        ticket.file_id,
                    )->0.latest_commit,
                    durability,
                })
                &&& published_stream(
                    old(self).metadata.append_streams@[ticket.stream_id.0],
                    final(self).metadata.append_streams@[ticket.stream_id.0],
                    old(self).logs(),
                    ticket.publish_through,
                )
            }),
            old(self).takes_publish(*ticket) && old(self).file_room(
                ticket.keyspace_id,
                ticket.file_id,
            ) ==> result is Ok,
            final(self).moved_within(old(self), 0),
            final(self).storage_nodes == old(self).storage_nodes,
            final(self).append_run_logs == old(self).append_run_logs,
            final(self).native_file_batch_profiler == old(self).native_file_batch_profiler,
            final(self).metadata.file_writer_epochs == old(self).metadata.file_writer_epochs,
            old(self).metadata.append_publish_tickets@.contains_key(ticket.ticket_id.0) && old(
                self,
            ).metadata.append_publish_tickets@[ticket.ticket_id.0].ticket == *ticket ==> (old(
                self,
            ).metadata.append_publish_tickets@[ticket.ticket_id.0].completed matches Some(commit)
                ==> result == Ok::<AppendPublishCommit, StorageError>(commit)),
            result is Err ==> final(self).metadata.append_publish_tickets == old(
                self,
            ).metadata.append_publish_tickets && final(self).metadata.append_streams == old(
                self,
            ).metadata.append_streams && final(self).metadata.file_head(
                ticket.keyspace_id,
                ticket.file_id,
            ) == old(self).metadata.file_head(ticket.keyspace_id, ticket.file_id),
            result is Ok ==> final(self).metadata.append_publish_tickets@.remove(
                ticket.ticket_id.0,
            ) == old(self).metadata.append_publish_tickets@.remove(ticket.ticket_id.0)
                && final(self).metadata.append_streams@.remove(ticket.stream_id.0) == old(
                self,
            ).metadata.append_streams@.remove(ticket.stream_id.0),
            result matches Ok(commit) ==> old(
                self,
            ).metadata.append_publish_tickets@[ticket.ticket_id.0].completed is None ==> commit.commit_seq.0
                == old(self).metadata.next_commit_seq && commit.version.0 == old(
                self,
            ).metadata.file_head(ticket.keyspace_id, ticket.file_id)->0.version.0 + 1,
            !old(self).metadata.append_publish_tickets@.contains_key(ticket.ticket_id.0) ==> result
                == Err::<AppendPublishCommit, StorageError>(
                StorageError::Conflict { message: "stale append publish ticket" },
            ),
            result is Ok ==> (old(self).metadata.append_publish_tickets@[
                ticket.ticket_id.0
            ].completed is None ==> final(self).metadata.file_commit_recorded(
                &old(self).metadata,
                ticket.keyspace_id,
                old(self).metadata.file_head(ticket.keyspace_id, ticket.file_id)->0,
                final(self).metadata.file_head(ticket.keyspace_id, ticket.file_id)->0,
            )),
    {
        let ghost before = *self;
        proof {
            before.metadata.lemma_own_records();
            before.metadata.lemma_own_catalogs_past();
        }
        let bs: u64 = self.config.block_size as u64;
        let keyspace_id = ticket.keyspace_id;
        let file_id = ticket.file_id;
        let record = match self.metadata.append_publish_ticket_status(ticket) {
            Ok(record) => record,
            Err(error) => return Err(error),
        };
        match record.completed {
            Some(commit) => {
                return Ok(commit);
            },
            None => {},
        }
        let stream = record.stream;
        if stream.keyspace_id.0 != keyspace_id.0 || stream.file_id.0 != file_id.0
            || stream.stream_id.0 != ticket.stream_id.0 || stream.writer_epoch.0
            != ticket.writer_epoch.0 {
            return Err(StorageError::conflict("stale append publish ticket"));
        }
        assert(self.metadata.files_wf(self.block_size()));
        let head = match self.metadata.get_file_head(keyspace_id, file_id) {
            Ok(head) => head,
            Err(error) => return Err(error),
        };
        proof {
            self.metadata.lemma_file_wf(keyspace_id, file_id, bs);
        }
        let records = match self.metadata.append_stream_publish_records(
            &stream,
            head.size,
            ticket.publish_through,
            Ghost(before.logs()),
        ) {
            Ok(records) => records,
            Err(error) => return Err(error),
        };
        let extents = record_extents(&records, Ghost(before.logs()));
        let range = ByteRange { offset: head.size, len: ticket.publish_through - head.size };
        proof {
            lemma_record_extents(
                before.logs(),
                records@,
                head.size as int,
                ticket.publish_through as int,
            );
        }
        let put = self.put_runs(head.root, range, &extents);
        let ghost middle = *self;
        proof {
            self.metadata.lemma_catalogs_past_carried(
                &before.metadata,
                &before.metadata,
                &before.metadata,
            );
        }
        let new_root = match put {
            Ok(new_root) => new_root,
            Err(error) => return Err(error),
        };
        proof {
            assert(self.metadata.file_head(keyspace_id, file_id) == before.metadata.file_head(
                keyspace_id,
                file_id,
            ));
            assert forall|k: KeyspaceId, f: FileId| #[trigger] self.metadata.file_head(k, f)
                == before.metadata.file_head(k, f) by {}
            assert(self.metadata.append_streams@.contains_key(stream.stream_id.0));
        }
        let published = self.metadata.publish_file_commit(
            keyspace_id,
            file_id,
            FileFence::Stream { stream_id: stream.stream_id, writer_epoch: stream.writer_epoch },
            head.root,
            new_root,
            ticket.publish_through,
            bs,
        );
        proof {
            assert forall|k: KeyspaceId, f: FileId|
                (k != keyspace_id || f != file_id) && before.metadata.has_keyspace(
                    k,
                ) implies #[trigger] self.metadata.file_head(k, f) == before.metadata.file_head(
                k,
                f,
            ) by {
                assert(middle.metadata.has_keyspace(k));
                assert(middle.metadata.file_head(k, f) == before.metadata.file_head(k, f));
            }
            assert(self.wf());
            self.metadata.lemma_catalogs_past_carried(
                &self.metadata,
                &middle.metadata,
                &before.metadata,
            );
        }
        let new_head = match published {
            Ok(new_head) => new_head,
            Err(error) => {
                self.record_publish_failure(&error);
                return Err(error);
            },
        };
        self.record_event(
            StorageEventKind::MetadataPublishSucceeded,
            None,
            None,
            Some(new_head.latest_commit),
        );
        let ghost published_state = *self;
        match self.metadata.mark_append_stream_published(
            &stream,
            ticket.publish_through,
            Ghost(before.logs()),
        ) {
            Ok(()) => {},
            Err(error) => {
                assert(false);
                return Err(error);
            },
        }
        let commit = AppendPublishCommit {
            keyspace_id,
            file_id,
            range,
            version: new_head.version,
            commit_seq: new_head.latest_commit,
            durability,
        };
        self.metadata.append_publish_tickets.insert(
            ticket.ticket_id.raw(),
            AppendPublishTicketRecord { ticket: *ticket, stream, completed: Some(commit) },
        );
        proof {
            assert(self.metadata.devices_wf(bs));
            assert(self.metadata.files_wf(bs));
            assert(self.wf());
            self.metadata.lemma_catalogs_past_carried(
                &published_state.metadata,
                &middle.metadata,
                &before.metadata,
            );
            assert(self.metadata.append_publish_tickets@.remove(ticket.ticket_id.0)
                =~= before.metadata.append_publish_tickets@.remove(ticket.ticket_id.0));
            assert forall|id: u128| #[trigger]
                before.metadata.append_streams@.contains_key(id) && !stream_is_of(
                    before.metadata.append_streams@[id],
                    keyspace_id,
                    file_id,
                ) implies self.metadata.append_streams@[id]
                == before.metadata.append_streams@[id] by {
                assert(id != stream.stream_id.0);
                assert(self.metadata.append_streams@.remove(stream.stream_id.0)[id]
                    == before.metadata.append_streams@.remove(stream.stream_id.0)[id]);
            }
            assert(self.metadata.file_head(keyspace_id, file_id) == Some(new_head));
            assert forall|k: KeyspaceId, f: FileId|
                (k != keyspace_id || f != file_id) && before.metadata.has_keyspace(
                    k,
                ) implies #[trigger] self.metadata.file_head(k, f) == before.metadata.file_head(
                k,
                f,
            ) by {
                assert(published_state.metadata.file_head(k, f) == before.metadata.file_head(k, f));
            }
            assert(self.nodes() == middle.nodes());
            lemma_stream_published(
                before,
                *self,
                stream,
                head,
                new_head,
                records@,
                ticket.publish_through,
            );
        }
        Ok(commit)
    }

    /// Publishes a stream up to a place.
    pub fn publish_append_stream(
        &mut self,
        stream: &AppendStream,
        publish_through: u64,
        durability: WriteDurability,
    ) -> (result: Result<AppendPublishCommit, StorageError>)
        requires
            old(self).wf(),
        ensures
            final(self).only_file_changed(old(self), stream.keyspace_id, stream.file_id),
            result matches Ok(commit) ==> final(self).stream_published(
                old(self),
                *stream,
                publish_through,
            ) && commit.keyspace_id == stream.keyspace_id && commit.file_id == stream.file_id
                && commit.durability == durability && commit.range == (ByteRange {
                offset: old(self).file_size(stream.keyspace_id, stream.file_id) as u64,
                len: (publish_through - old(self).file_size(
                    stream.keyspace_id,
                    stream.file_id,
                )) as u64,
            }) && commit.commit_seq == final(self).metadata.file_head(
                stream.keyspace_id,
                stream.file_id,
            )->0.latest_commit && commit.version == final(self).metadata.file_head(
                stream.keyspace_id,
                stream.file_id,
            )->0.version,
            token_open(old(self).metadata.append_streams@, *stream) && old(
                self,
            ).metadata.has_file(stream.keyspace_id, stream.file_id) && old(
                self,
            ).metadata.append_streams@[stream.stream_id.0].state.published_through == old(
                self,
            ).file_size(stream.keyspace_id, stream.file_id) && old(self).file_size(
                stream.keyspace_id,
                stream.file_id,
            ) < publish_through <= old(self).stream_tail(stream.stream_id) && publish_through
                <= old(self).file_limit(stream.keyspace_id, stream.file_id) && old(
                self,
            ).metadata.next_append_publish_ticket_id < u128::MAX && old(self).file_room(
                stream.keyspace_id,
                stream.file_id,
            ) ==> result is Ok,
            final(self).moved_within(old(self), 0),
            result matches Ok(commit) ==> commit.commit_seq.0 == old(
                self,
            ).metadata.next_commit_seq && commit.version.0 == old(self).metadata.file_head(
                stream.keyspace_id,
                stream.file_id,
            )->0.version.0 + 1 && final(self).metadata.append_streams@.remove(stream.stream_id.0)
                == old(self).metadata.append_streams@.remove(stream.stream_id.0),
            result is Err ==> final(self).metadata.append_streams == old(
                self,
            ).metadata.append_streams && final(self).metadata.file_head(
                stream.keyspace_id,
                stream.file_id,
            ) == old(self).metadata.file_head(stream.keyspace_id, stream.file_id),
            !token_open(old(self).metadata.append_streams@, *stream) ==> (result matches Err(error)
                && error is Conflict),
            final(self).metadata.catalogs_past_kept(&old(self).metadata),
            result matches Ok(commit) ==> final(self).metadata.append_publish_tickets@ == old(
                self,
            ).metadata.append_publish_tickets@.insert(
                old(self).metadata.next_append_publish_ticket_id,
                AppendPublishTicketRecord {
                    ticket: AppendPublishTicket {
                        keyspace_id: stream.keyspace_id,
                        file_id: stream.file_id,
                        stream_id: stream.stream_id,
                        ticket_id: AppendPublishTicketId(
                            old(self).metadata.next_append_publish_ticket_id,
                        ),
                        writer_epoch: stream.writer_epoch,
                        publish_through,
                    },
                    stream: *stream,
                    completed: Some(commit),
                },
            ),
            result is Err ==> forall|id: u128|
                id != old(self).metadata.next_append_publish_ticket_id ==> (#[trigger] final(self).metadata.append_publish_tickets@.contains_key(id) <==> old(
                    self,
                ).metadata.append_publish_tickets@.contains_key(id)) && (old(
                    self,
                ).metadata.append_publish_tickets@.contains_key(id) ==> final(self).metadata.append_publish_tickets@[id] == old(
                    self,
                ).metadata.append_publish_tickets@[id]),
            result is Ok ==> final(self).metadata.file_commit_recorded(
                &old(self).metadata,
                stream.keyspace_id,
                old(self).metadata.file_head(stream.keyspace_id, stream.file_id)->0,
                final(self).metadata.file_head(stream.keyspace_id, stream.file_id)->0,
            ),
    {
        let ghost before = *self;
        proof {
            before.metadata.lemma_own_records();
            before.metadata.lemma_own_catalogs_past();
        }
        let ticket = match self.submit_append_publish(stream, publish_through) {
            Ok(ticket) => ticket,
            Err(error) => {
                proof {
                    self.metadata.lemma_catalogs_past_carried(
                        &before.metadata,
                        &before.metadata,
                        &before.metadata,
                    );
                }
                return Err(error);
            },
        };
        let ghost submitted = *self;
        proof {
            assert forall|k: KeyspaceId, f: FileId| #[trigger] submitted.metadata.file_head(k, f)
                == before.metadata.file_head(k, f) by {}
        }
        let result = self.wait_append_publish(&ticket, durability);
        proof {
            self.metadata.lemma_catalogs_past_carried(
                &self.metadata,
                &submitted.metadata,
                &before.metadata,
            );
            let id = ticket.ticket_id.0;
            let (first, last) = (
                before.metadata.append_publish_tickets@,
                self.metadata.append_publish_tickets@,
            );
            assert(submitted.metadata.append_publish_tickets@.remove(id) == first.remove(id));
            if result is Ok {
                assert(last.remove(id) == first.remove(id));
                assert(last =~= last.remove(id).insert(id, last[id]));
                assert(first.insert(id, last[id]) =~= first.remove(id).insert(id, last[id]));
            } else {
                assert(last.remove(id) == first.remove(id));
            }
            assert forall|other: u128| other != id implies (#[trigger] last.contains_key(other)
                <==> first.contains_key(other)) && (first.contains_key(other) ==> last[other]
                == first[other]) by {
                assert(last.remove(id).contains_key(other) == last.contains_key(other));
                assert(first.remove(id).contains_key(other) == first.contains_key(other));
                if first.contains_key(other) {
                    assert(last.remove(id)[other] == last[other]);
                    assert(first.remove(id)[other] == first[other]);
                }
            }
            let (keyspace_id, file_id) = (stream.keyspace_id, stream.file_id);
            assert forall|id: u128| #[trigger]
                before.metadata.append_publish_tickets@.contains_key(id) && id
                    < before.metadata.next_append_publish_ticket_id implies
                self.metadata.append_publish_tickets@.contains_key(id) && (
            before.metadata.append_publish_tickets@[id].ticket.keyspace_id == keyspace_id
                && before.metadata.append_publish_tickets@[id].ticket.file_id == file_id
                || self.metadata.append_publish_tickets@[id]
                == before.metadata.append_publish_tickets@[id]) by {
                assert(id != ticket.ticket_id.0);
                assert(submitted.metadata.append_publish_tickets@.remove(ticket.ticket_id.0)[id]
                    == before.metadata.append_publish_tickets@.remove(ticket.ticket_id.0)[id]);
                assert(submitted.metadata.append_publish_tickets@.remove(
                    ticket.ticket_id.0,
                ).contains_key(id));
                assert(submitted.metadata.append_publish_tickets@.contains_key(id));
            }
            assert forall|k: KeyspaceId, f: FileId|
                (k != keyspace_id || f != file_id) && before.metadata.has_keyspace(
                    k,
                ) implies #[trigger] self.metadata.file_head(k, f) == before.metadata.file_head(
                k,
                f,
            ) by {
                assert(submitted.metadata.has_keyspace(k));
                assert(self.metadata.file_head(k, f) == submitted.metadata.file_head(k, f));
            }
            if result is Ok {
                assert forall|byte: int| #[trigger] submitted.file_byte(keyspace_id, file_id, byte)
                    == before.file_byte(keyspace_id, file_id, byte) by {}
                assert forall|byte: int|
                    0 <= byte < publish_through implies #[trigger] self.file_byte(
                    keyspace_id,
                    file_id,
                    byte,
                ) == (if byte < before.file_size(keyspace_id, file_id) {
                    before.file_byte(keyspace_id, file_id, byte)
                } else {
                    before.stream_byte(stream.stream_id, byte)->0
                }) by {
                    assert(submitted.file_byte(keyspace_id, file_id, byte) == before.file_byte(
                        keyspace_id,
                        file_id,
                        byte,
                    ));
                }
                if before.clean_tail(keyspace_id, file_id) {
                    assert(submitted.clean_tail(keyspace_id, file_id)) by {
                        assert forall|byte: int|
                            submitted.file_size(keyspace_id, file_id) <= byte
                                < submitted.file_limit(keyspace_id, file_id) implies #[trigger]
                            submitted.file_byte(keyspace_id, file_id, byte) == 0 by {
                            assert(before.file_byte(keyspace_id, file_id, byte) == 0);
                        }
                    }
                }
            }
        }
        result
    }
}

proof fn lemma_stream_published(
    before: LocalCoordinator,
    after: LocalCoordinator,
    token: AppendStream,
    head: FileHead,
    new_head: FileHead,
    records: Seq<crate::metadata_records::AppendStreamRunRecord>,
    publish_through: u64,
)
    requires
        before.wf(),
        before.metadata.file_head(token.keyspace_id, token.file_id) == Some(head),
        after.metadata.file_head(token.keyspace_id, token.file_id) == Some(new_head),
        before.nodes().contains_key(head.root.0),
        before.nodes()[head.root.0].covered_range.start.0 == 0,
        head.size < publish_through,
        publish_through <= before.nodes()[head.root.0].covered_range.end() * before.block_size(),
        new_head.size == publish_through,
        after.config == before.config,
        after.logs() == before.logs(),
        after.segments() == before.segments(),
        tree_with_runs(
            before,
            after,
            head.root,
            new_head.root,
            ByteRange { offset: head.size, len: (publish_through - head.size) as u64 },
            extents_of(records),
        ),
        crate::metadata::records_contiguous(records, head.size as int, publish_through as int),
        forall|i: int|
            0 <= i < records.len() ==> crate::metadata::stream_record_wf(
                before.logs(),
                #[trigger] records[i],
            ),
        forall|byte: int|
            head.size <= byte < publish_through ==> #[trigger] records_byte(
                before.logs(),
                records,
                byte,
            ) == before.stream_byte(token.stream_id, byte),
    ensures
        after.stream_published(&before, token, publish_through),
{
    let (k, f) = (token.keyspace_id, token.file_id);
    let range = ByteRange { offset: head.size, len: (publish_through - head.size) as u64 };
    let extents = extents_of(records);
    lemma_record_extents(before.logs(), records, head.size as int, publish_through as int);
    assert forall|byte: int| 0 <= byte < before.file_limit(k, f) implies after.file_byte(k, f, byte)
        == #[trigger] tree_byte(
        after.nodes(),
        after.segments(),
        after.logs(),
        new_head.root,
        after.block_size(),
        byte,
    ) by {}
    assert forall|byte: int| 0 <= byte < publish_through implies #[trigger] after.file_byte(
        k,
        f,
        byte,
    ) == (if byte < head.size {
        before.file_byte(k, f, byte)
    } else {
        before.stream_byte(token.stream_id, byte)->0
    }) by {
        if byte >= head.size {
            assert(range.contains(byte));
            assert(extent_at(extents, byte) is Some);
            assert(records_byte(before.logs(), records, byte) == before.stream_byte(
                token.stream_id,
                byte,
            ));
        } else {
            assert(!range.contains(byte));
        }
    }
    if before.clean_tail(k, f) {
        assert forall|byte: int|
            after.file_size(k, f) <= byte < after.file_limit(k, f) implies #[trigger]
            after.file_byte(k, f, byte) == 0 by {
            assert(!range.contains(byte));
            assert(before.file_byte(k, f, byte) == 0);
        }
    }
}

} // verus!
