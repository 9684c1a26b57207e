//! Publishing and collecting in a durable store: what has to be durable first
//! is asked for first.
use vstd::prelude::*;

use crate::block_api::{ByteRange, WriteDurability};
use crate::coordinator::LocalCoordinator;
use crate::custodian::{MetadataCustodianReport, lists_unnamed, log_used};
use crate::durable::{DurableCoordinator, PersistDue};
use crate::error::StorageError;
use crate::gc::RetentionPolicy;
use crate::id::{AppendPublishTicketId, StorageNodeId};
use crate::metadata::{AppendPublishInFlight, AppendPublishTicketRecord, MetadataInner};
use crate::metadata_streams::{published_stream, token_open};
use crate::native_api::{AppendPublishCommit, AppendPublishTicket, AppendStream};
use crate::observability::{StorageEventKind, counted};

verus! {

/// How far a publish has come.
#[derive(Clone, Copy, Debug)]
pub enum PublishProgress {
    Published(AppendPublishCommit),
    /// The stream has to be durable up to the ticket's place first; the ticket
    /// is waited for again after that.
    PrefixDue(AppendPublishTicket),
}

impl DurableCoordinator {
    /// Whether an open stream is not durable up to a place.
    pub open spec fn lacks_prefix(&self, stream: AppendStream, through: u64) -> bool {
        token_open(self.local.metadata.append_streams@, stream)
            && self.local.metadata.append_streams@[stream.stream_id.0].state.durable_through
            < through
    }

    /// Whether a ticket is waited for whose stream is not durable up to its
    /// place.
    pub open spec fn prefix_due(&self, ticket: AppendPublishTicket) -> bool {
        let tickets = self.local.metadata.append_publish_tickets@;
        &&& tickets.contains_key(ticket.ticket_id.0)
        &&& tickets[ticket.ticket_id.0].ticket == ticket
        &&& tickets[ticket.ticket_id.0].completed is None
        &&& self.lacks_prefix(tickets[ticket.ticket_id.0].stream, ticket.publish_through)
    }

    fn is_prefix_lacking(&self, stream: &AppendStream, through: u64) -> (lacking: bool)
        ensures
            lacking == self.lacks_prefix(*stream, through),
    {
        if !self.local.metadata.is_token_open(stream) {
            return false;
        }
        match self.local.metadata.append_streams.get(stream.stream_id.raw()) {
            Some(live) => live.state.durable_through < through,
            None => false,
        }
    }

    /// The stream of a ticket that waits for its stream to be durable.
    fn stream_to_persist(&self, ticket: &AppendPublishTicket) -> (found: Option<AppendStream>)
        ensures
            found is Some <==> self.prefix_due(*ticket),
            found matches Some(stream) ==> stream
                == self.local.metadata.append_publish_tickets@[ticket.ticket_id.0].stream,
    {
        match self.local.metadata.append_publish_tickets.get(ticket.ticket_id.raw()) {
            Some(record) => {
                if record.completed.is_some() || !same_ticket(&record.ticket, ticket) {
                    return None;
                }
                if self.is_prefix_lacking(&record.stream, ticket.publish_through) {
                    Some(record.stream)
                } else {
                    None
                }
            },
            None => None,
        }
    }

    /// Waits for a ticket. What is published is durable: first the stream up to
    /// the ticket's place, then the commit. A ticket that was served is answered
    /// again, with nothing to write.
    pub fn wait_append_publish(&mut self, ticket: &AppendPublishTicket) -> (result: Result<
        PublishProgress,
        StorageError,
    >)
        requires
            old(self).wf(),
        ensures
            final(self).wf(),
            final(self).follows(old(self)),
            *final(self) == (DurableCoordinator {
                local: final(self).local,
                due: final(self).due,
                ..*old(self)
            }),
            result matches Ok(PublishProgress::PrefixDue(again)) ==> old(self).prefix_due(*ticket)
                && again == *ticket,
            old(self).prefix_due(*ticket) ==> (result matches Ok(PublishProgress::PrefixDue(_)))
                && final(self).local == old(self).local && final(self).due
                == (PersistDue::StreamPrefix {
                stream: old(self).local.metadata.append_publish_tickets@[ticket.ticket_id.0].stream,
                through: ticket.publish_through,
            }),
            result matches Ok(PublishProgress::Published(commit)) ==> final(self).due == if old(
                self,
            ).local.metadata.append_publish_tickets@[ticket.ticket_id.0].completed is Some {
                PersistDue::Nothing
            } else {
                PersistDue::Commits(commit.commit_seq)
            },
            result is Err ==> final(self).due == PersistDue::Nothing,
            final(self).local.only_file_changed(&old(self).local, ticket.keyspace_id, ticket.file_id),
            result matches Ok(PublishProgress::Published(_)) ==> old(self).local.metadata.append_publish_tickets@.contains_key(
                ticket.ticket_id.0,
            ) && old(self).local.metadata.append_publish_tickets@[ticket.ticket_id.0].ticket == *ticket
                && final(self).local.metadata.append_publish_tickets@.contains_key(ticket.ticket_id.0),
            result matches Ok(PublishProgress::Published(commit)) ==> final(self).local.metadata.append_publish_tickets@[
                ticket.ticket_id.0
            ] == (AppendPublishTicketRecord {
                ticket: *ticket,
                stream: old(self).local.metadata.append_publish_tickets@[ticket.ticket_id.0].stream,
                completed: Some(commit),
            }),
            final(self).local.metadata.catalogs_past_kept(&old(self).local.metadata),
            result matches Ok(PublishProgress::Published(commit)) ==> (old(self).local.metadata.append_publish_tickets@[ticket.ticket_id.0].completed is Some
                ==> final(self).local == old(self).local),
            result matches Ok(PublishProgress::Published(commit)) ==> (old(self).local.metadata.append_publish_tickets@[ticket.ticket_id.0].completed is None ==> {
                &&& final(self).local.stream_published(
                    &old(self).local,
                    old(self).local.metadata.append_publish_tickets@[ticket.ticket_id.0].stream,
                    ticket.publish_through,
                )
                &&& commit == (AppendPublishCommit {
                    keyspace_id: ticket.keyspace_id,
                    file_id: ticket.file_id,
                    range: ByteRange {
                        offset: old(self).local.file_size(
                            ticket.keyspace_id,
                            ticket.file_id,
                        ) as u64,
                        len: (ticket.publish_through - old(self).local.file_size(
                            ticket.keyspace_id,
                            ticket.file_id,
                        )) as u64,
                    },
                    version: final(self).local.metadata.file_head(
                        ticket.keyspace_id,
                        ticket.file_id,
                    )->0.version,
                    commit_seq: final(self).local.metadata.file_head(
                        ticket.keyspace_id,
                        ticket.file_id,
                    )->0.latest_commit,
                    durability: WriteDurability::Flushed,
                })
                &&& published_stream(
                    old(self).local.metadata.append_streams@[ticket.stream_id.0],
                    final(self).local.metadata.append_streams@[ticket.stream_id.0],
                    old(self).local.logs(),
                    ticket.publish_through,
                )
            }),
            old(self).local.takes_publish(*ticket) && old(self).local.file_room(
                ticket.keyspace_id,
                ticket.file_id,
            ) ==> result is Ok,
            final(self).local.moved_within(&old(self).local, 0),
            final(self).local.storage_nodes == old(self).local.storage_nodes,
            final(self).local.append_run_logs == old(self).local.append_run_logs,
            final(self).local.native_file_batch_profiler == old(self).local.native_file_batch_profiler,
            final(self).local.metadata.file_writer_epochs == old(self).local.metadata.file_writer_epochs,
            old(self).local.metadata.append_publish_tickets@.contains_key(ticket.ticket_id.0) && old(self).local.metadata.append_publish_tickets@[ticket.ticket_id.0].ticket == *ticket ==> (old(self).local.metadata.append_publish_tickets@[ticket.ticket_id.0].completed matches Some(commit)
                ==> result == Ok::<PublishProgress, StorageError>(PublishProgress::Published(commit))),
            result is Err ==> final(self).local.metadata.append_publish_tickets == old(self).local.metadata.append_publish_tickets && final(self).local.metadata.append_streams == old(self).local.metadata.append_streams && final(self).local.metadata.file_head(
                ticket.keyspace_id,
                ticket.file_id,
            ) == old(self).local.metadata.file_head(ticket.keyspace_id, ticket.file_id),
            result matches Ok(PublishProgress::Published(_)) ==> final(self).local.metadata.append_publish_tickets@.remove(
                ticket.ticket_id.0,
            ) == old(self).local.metadata.append_publish_tickets@.remove(ticket.ticket_id.0)
                && final(self).local.metadata.append_streams@.remove(ticket.stream_id.0) == old(self).local.metadata.append_streams@.remove(ticket.stream_id.0),
            result matches Ok(PublishProgress::Published(commit)) ==> old(self).local.metadata.append_publish_tickets@[ticket.ticket_id.0].completed is None ==> commit.commit_seq.0
                == old(self).local.metadata.next_commit_seq && commit.version.0 == old(self).local.metadata.file_head(ticket.keyspace_id, ticket.file_id)->0.version.0 + 1,
            !old(self).local.metadata.append_publish_tickets@.contains_key(ticket.ticket_id.0) ==> result
                == Err::<PublishProgress, StorageError>(
                StorageError::Conflict { message: "stale append publish ticket" },
            ),
            result matches Ok(PublishProgress::Published(_)) ==> (old(self).local.metadata.append_publish_tickets@[
                ticket.ticket_id.0
            ].completed is None ==> final(self).local.metadata.file_commit_recorded(
                &old(self).local.metadata,
                ticket.keyspace_id,
                old(self).local.metadata.file_head(ticket.keyspace_id, ticket.file_id)->0,
                final(self).local.metadata.file_head(ticket.keyspace_id, ticket.file_id)->0,
            )),
    {
        self.due = PersistDue::Nothing;
        proof {
            self.local.metadata.lemma_own_records();
            self.local.metadata.lemma_own_catalogs_past();
        }
        if let Some(stream) = self.stream_to_persist(ticket) {
            self.due = PersistDue::StreamPrefix { stream, through: ticket.publish_through };
            return Ok(PublishProgress::PrefixDue(*ticket));
        }
        let served = match self.local.metadata.append_publish_tickets.get(ticket.ticket_id.raw()) {
            Some(record) => record.completed.is_some(),
            None => false,
        };
        match self.local.wait_append_publish(ticket, WriteDurability::Flushed) {
            Ok(commit) => {
                if !served {
                    self.due = PersistDue::Commits(commit.commit_seq);
                }
                Ok(PublishProgress::Published(commit))
            },
            Err(error) => Err(error),
        }
    }

    /// Publishes a stream up to a place, durably: the stream is made durable up
    /// to it before the commit.
    pub fn publish_append_stream(&mut self, stream: &AppendStream, publish_through: u64) -> (result:
        Result<PublishProgress, StorageError>)
        requires
            old(self).wf(),
        ensures
            final(self).wf(),
            final(self).follows(old(self)),
            *final(self) == (DurableCoordinator {
                local: final(self).local,
                due: final(self).due,
                ..*old(self)
            }),
            result matches Ok(PublishProgress::PrefixDue(_)) ==> old(self).lacks_prefix(
                *stream,
                publish_through,
            ) && final(self).due == (PersistDue::StreamPrefix {
                stream: *stream,
                through: publish_through,
            }),
            result matches Ok(PublishProgress::Published(commit)) ==> !old(self).lacks_prefix(
                *stream,
                publish_through,
            ) && final(self).due == PersistDue::Commits(commit.commit_seq),
            result is Err ==> final(self).due == PersistDue::Nothing,
            old(self).lacks_prefix(*stream, publish_through) ==> (final(self).local.only_streams_changed(&old(self).local)),
            old(self).lacks_prefix(*stream, publish_through) ==> (final(self).local.metadata.append_streams == old(self).local.metadata.append_streams),
            old(self).lacks_prefix(*stream, publish_through) ==> (final(self).local.metadata.file_writer_epochs == old(self).local.metadata.file_writer_epochs),
            old(self).lacks_prefix(*stream, publish_through) ==> (final(self).local.metadata.next_append_stream_id == old(self).local.metadata.next_append_stream_id),
            old(self).lacks_prefix(*stream, publish_through) ==> (final(self).local.metadata.next_append_ticket_id == old(self).local.metadata.next_append_ticket_id),
            old(self).lacks_prefix(*stream, publish_through) ==> (final(self).local == (LocalCoordinator { metadata: final(self).local.metadata, ..old(self).local })),
            old(self).lacks_prefix(*stream, publish_through) ==> (final(self).local.metadata.next_append_publish_ticket_id == if old(self).local.metadata.next_append_publish_ticket_id == u128::MAX {
                u128::MAX as int
            } else {
                old(self).local.metadata.next_append_publish_ticket_id + 1
            }),
            old(self).lacks_prefix(*stream, publish_through) ==> (result is Err ==> final(self).local.metadata == (MetadataInner {
                next_append_publish_ticket_id: final(self).local.metadata.next_append_publish_ticket_id,..old(self).local.metadata
            })),
            old(self).lacks_prefix(*stream, publish_through) ==> (result matches Ok(PublishProgress::PrefixDue(ticket)) ==> ticket.ticket_id.0 == old(self).local.metadata.next_append_publish_ticket_id
                && final(self).local.metadata.append_publish_tickets@.remove(ticket.ticket_id.0) == old(self).local.metadata.append_publish_tickets@.remove(ticket.ticket_id.0)),
            old(self).lacks_prefix(*stream, publish_through) ==> (final(self).local.append_run_logs == old(self).local.append_run_logs),
            old(self).lacks_prefix(*stream, publish_through) ==> (result is Ok <==> token_open(old(self).local.metadata.append_streams@, *stream) && old(self).local.metadata.append_streams@[stream.stream_id.0].state.published_through
                < publish_through <= old(self).local.stream_tail(stream.stream_id) && old(self).local.metadata.next_append_publish_ticket_id < u128::MAX),
            old(self).lacks_prefix(*stream, publish_through) ==> (result matches Ok(PublishProgress::PrefixDue(ticket)) ==> ticket.keyspace_id == stream.keyspace_id && ticket.file_id
                == stream.file_id && ticket.stream_id == stream.stream_id && ticket.writer_epoch
                == stream.writer_epoch && ticket.publish_through == publish_through
                && final(self).local.metadata.append_publish_tickets@.contains_key(ticket.ticket_id.0)
                && final(self).local.metadata.append_publish_tickets@[ticket.ticket_id.0]
                == (AppendPublishTicketRecord { ticket, stream: *stream, completed: None })),
            old(self).lacks_prefix(*stream, publish_through) ==> (!token_open(old(self).local.metadata.append_streams@, *stream) ==> (result matches Err(error)
                && error is Conflict)),
            !old(self).lacks_prefix(*stream, publish_through) ==> (final(self).local.only_file_changed(&old(self).local, stream.keyspace_id, stream.file_id)),
            !old(self).lacks_prefix(*stream, publish_through) ==> (result matches Ok(PublishProgress::Published(commit)) ==> final(self).local.stream_published(
                &old(self).local,
                *stream,
                publish_through,
            ) && commit.keyspace_id == stream.keyspace_id && commit.file_id == stream.file_id
                && commit.durability == WriteDurability::Flushed && commit.range == (ByteRange {
                offset: old(self).local.file_size(stream.keyspace_id, stream.file_id) as u64,
                len: (publish_through - old(self).local.file_size(
                    stream.keyspace_id,
                    stream.file_id,
                )) as u64,
            }) && commit.commit_seq == final(self).local.metadata.file_head(
                stream.keyspace_id,
                stream.file_id,
            )->0.latest_commit && commit.version == final(self).local.metadata.file_head(
                stream.keyspace_id,
                stream.file_id,
            )->0.version),
            !old(self).lacks_prefix(*stream, publish_through) ==> (token_open(old(self).local.metadata.append_streams@, *stream) && old(self).local.metadata.has_file(stream.keyspace_id, stream.file_id) && old(self).local.metadata.append_streams@[stream.stream_id.0].state.published_through == old(self).local.file_size(stream.keyspace_id, stream.file_id) && old(self).local.file_size(
                stream.keyspace_id,
                stream.file_id,
            ) < publish_through <= old(self).local.stream_tail(stream.stream_id) && publish_through
                <= old(self).local.file_limit(stream.keyspace_id, stream.file_id) && old(self).local.metadata.next_append_publish_ticket_id < u128::MAX && old(self).local.file_room(
                stream.keyspace_id,
                stream.file_id,
            ) ==> result is Ok),
            !old(self).lacks_prefix(*stream, publish_through) ==> (final(self).local.moved_within(&old(self).local, 0)),
            !old(self).lacks_prefix(*stream, publish_through) ==> (result matches Ok(PublishProgress::Published(commit)) ==> commit.commit_seq.0 == old(self).local.metadata.next_commit_seq && commit.version.0 == old(self).local.metadata.file_head(
                stream.keyspace_id,
                stream.file_id,
            )->0.version.0 + 1 && final(self).local.metadata.append_streams@.remove(stream.stream_id.0)
                == old(self).local.metadata.append_streams@.remove(stream.stream_id.0)),
            !old(self).lacks_prefix(*stream, publish_through) ==> (result is Err ==> final(self).local.metadata.append_streams == old(self).local.metadata.append_streams && final(self).local.metadata.file_head(
                stream.keyspace_id,
                stream.file_id,
            ) == old(self).local.metadata.file_head(stream.keyspace_id, stream.file_id)),
            !old(self).lacks_prefix(*stream, publish_through) ==> (!token_open(old(self).local.metadata.append_streams@, *stream) ==> (result matches Err(error)
                && error is Conflict)),
            !old(self).lacks_prefix(*stream, publish_through) ==> (final(self).local.metadata.catalogs_past_kept(&old(self).local.metadata)),
            !old(self).lacks_prefix(*stream, publish_through) ==> (result matches Ok(PublishProgress::Published(commit)) ==> final(self).local.metadata.append_publish_tickets@ == old(self).local.metadata.append_publish_tickets@.insert(
                old(self).local.metadata.next_append_publish_ticket_id,
                AppendPublishTicketRecord {
                    ticket: AppendPublishTicket {
                        keyspace_id: stream.keyspace_id,
                        file_id: stream.file_id,
                        stream_id: stream.stream_id,
                        ticket_id: AppendPublishTicketId(
                            old(self).local.metadata.next_append_publish_ticket_id,
                        ),
                        writer_epoch: stream.writer_epoch,
                        publish_through,
                    },
                    stream: *stream,
                    completed: Some(commit),
                },
            )),
            !old(self).lacks_prefix(*stream, publish_through) ==> (result is Err ==> forall|id: u128|
                id != old(self).local.metadata.next_append_publish_ticket_id ==> (#[trigger] final(self).local.metadata.append_publish_tickets@.contains_key(id) <==> old(self).local.metadata.append_publish_tickets@.contains_key(id)) && (old(self).local.metadata.append_publish_tickets@.contains_key(id) ==> final(self).local.metadata.append_publish_tickets@[id] == old(self).local.metadata.append_publish_tickets@[id])),
            !old(self).lacks_prefix(*stream, publish_through) ==> (result matches Ok(PublishProgress::Published(_)) ==> final(self).local.metadata.file_commit_recorded(
                &old(self).local.metadata,
                stream.keyspace_id,
                old(self).local.metadata.file_head(stream.keyspace_id, stream.file_id)->0,
                final(self).local.metadata.file_head(stream.keyspace_id, stream.file_id)->0,
            )),
    {
        self.due = PersistDue::Nothing;
        if self.is_prefix_lacking(stream, publish_through) {
            return match self.local.submit_append_publish(stream, publish_through) {
                Ok(ticket) => {
                    self.due =
                    PersistDue::StreamPrefix { stream: *stream, through: publish_through };
                    Ok(PublishProgress::PrefixDue(ticket))
                },
                Err(error) => Err(error),
            };
        }
        match self.local.publish_append_stream(stream, publish_through, WriteDurability::Flushed) {
            Ok(commit) => {
                self.due = PersistDue::Commits(commit.commit_seq);
                Ok(PublishProgress::Published(commit))
            },
            Err(error) => Err(error),
        }
    }

    /// Marks, sweeps, and says which of the swept segments are now released.
    /// While there are block deltas that the stored state lacks, nothing is
    /// collected: the whole state is to be written first.
    pub fn run_metadata_custodian(&mut self, policy: RetentionPolicy, stored: bool) -> (result:
        Result<Option<MetadataCustodianReport>, StorageError>)
        requires
            old(self).wf(),
        ensures
            final(self).wf(),
            final(self).follows(old(self)),
            *final(self) == (DurableCoordinator {
                local: final(self).local,
                due: final(self).due,
                ..*old(self)
            }),
            final(self).due == PersistDue::Everything,
            result matches Ok(None) ==> old(self).unfolded(stored) && final(self).local == old(
                self,
            ).local,
            old(self).unfolded(stored) ==> (result matches Ok(None)),
            !old(self).unfolded(stored) ==> (final(self).local.contents_kept(&old(self).local)),
            !old(self).unfolded(stored) ==> (result is Ok <==> old(self).local.metadata.needed_roots_stored(policy.keep_history_from.0)
                && old(self).local.metadata.next_gc_epoch < u64::MAX && old(self).local.metadata.append_publish_in_flight@ == Map::<u128, AppendPublishInFlight>::empty()),
            !old(self).unfolded(stored) ==> (result matches Ok(Some(report)) ==> {
                &&& report.mark.epoch == old(self).local.metadata.next_gc_epoch
                &&& report.sweep.epoch == report.mark.epoch
                &&& final(self).local.metadata.custodian_ran_from(
                    &old(self).local.metadata,
                    policy.keep_history_from.0,
                )
                &&& final(self).local.metadata.nodes_swept(
                    &old(self).local.metadata,
                    policy.keep_history_from.0,
                    report.mark.epoch,
                )
                &&& report.mark.reachable_nodes == Set::<u128>::new(
                    |id: u128| old(self).local.metadata.needs_node(policy.keep_history_from.0, id),
                ).len()
                &&& report.mark.reachable_segments == Set::<u128>::new(
                    |id: u128| old(self).local.metadata.needs_segment(policy.keep_history_from.0, id),
                ).len()
                &&& lists_unnamed(
                    report.sweep.released_segments@,
                    old(self).local.nodes(),
                    final(self).local.nodes(),
                )
                &&& final(self).local.storage_nodes.released_from(
                    &old(self).local.storage_nodes,
                    report.sweep.released_segments@,
                )
                &&& report.catalog_released_segments@ == final(self).local.storage_nodes.released_among(
                    report.sweep.released_segments@,
                )
                &&& forall|key: (StorageNodeId, u64)| #[trigger]
                    final(self).local.logs().contains_key(key) <==> old(self).local.logs().contains_key(key)
                        && log_used(
                        final(self).local.nodes(),
                        final(self).local.metadata.append_streams@,
                        key,
                    )
                &&& forall|key: (StorageNodeId, u64)| #[trigger]
                    final(self).local.logs().contains_key(key) ==> final(self).local.logs()[key] == old(self).local.logs()[key]
                &&& final(self).local.streams_kept(&old(self).local)
                &&& final(self).local.observability.counters == counted(
                    old(self).local.observability.counters,
                    StorageEventKind::MetadataCustodianRan,
                )
            }),
            !old(self).unfolded(stored) ==> (final(self).local == (LocalCoordinator {
                metadata: final(self).local.metadata,
                storage_nodes: final(self).local.storage_nodes,
                append_run_logs: final(self).local.append_run_logs,
                observability: final(self).local.observability,..old(self).local
            })),
            !old(self).unfolded(stored) ==> (result matches Err(error) ==> (error is Conflict || error is NotFound)
                && final(self).local.storage_nodes == old(self).local.storage_nodes
                && final(self).local.append_run_logs == old(self).local.append_run_logs
                && final(self).local.observability == old(self).local.observability
                && final(self).local.metadata == (MetadataInner {
                metadata_last_mark_epoch: final(self).local.metadata.metadata_last_mark_epoch,
                segment_last_mark_epoch: final(self).local.metadata.segment_last_mark_epoch,
                next_gc_epoch: final(self).local.metadata.next_gc_epoch,..old(self).local.metadata
            })),
    {
        self.due = PersistDue::Everything;
        if self.has_unfolded_block_deltas(stored) {
            return Ok(None);
        }
        match self.local.run_metadata_custodian(policy) {
            Ok(report) => Ok(Some(report)),
            Err(error) => Err(error),
        }
    }
}

fn same_ticket(one: &AppendPublishTicket, other: &AppendPublishTicket) -> (same: bool)
    ensures
        same == (*one == *other),
{
    *one == *other
}

} // verus!
