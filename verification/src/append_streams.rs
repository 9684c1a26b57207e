//! Appending to files through streams.
use vstd::prelude::*;

use crate::block_api::{ByteRange, PayloadIntegrity, WriteDurability};
use crate::coordinator::LocalCoordinator;
use crate::error::StorageError;
use crate::file_publish::fenced;
use crate::id::{AppendRunId, AppendStreamId, AppendTicketId, FileId, KeyspaceId, StorageNodeId};
use crate::integrity::{payload_integrity_of, segment_payload_integrity};
use crate::metadata::{
    AppendPublishTicketRecord, LiveAppendStream, MetadataInner, lemma_streams_kept,
    stream_record_wf, stream_wf,
};
use crate::metadata_records::{
    AppendLogRun, AppendStreamRunRecord, AppendStreamState, AppendStreamStatus, MetadataNode,
};
use crate::metadata_streams::{file_epoch, record_contains, records_byte, token_open};
use crate::native_api::{AppendPublishTicket, AppendStream, AppendTicket};
use crate::observability::{StorageEventKind, counted};
use crate::read_plan::{RunLogMap, node_runs_backed, run_backed, tree_runs_backed};
use crate::run_logs::{keeps_logs, lemma_part_kept};

verus! {

/// Runs stay in the logs while these grow.
pub proof fn lemma_tree_runs_kept(
    nodes: Map<u128, MetadataNode>,
    before: RunLogMap,
    after: RunLogMap,
)
    requires
        tree_runs_backed(nodes, before),
        keeps_logs(before, after),
    ensures
        tree_runs_backed(nodes, after),
{
    assert forall|id: u128| #[trigger] nodes.contains_key(id) implies node_runs_backed(
        nodes[id],
        after,
    ) by {
        assert(node_runs_backed(nodes[id], before));
        if let crate::metadata_records::MetadataNodeKind::Leaf { run_extents, .. } =
            nodes[id].kind {
            assert forall|i: int| 0 <= i < run_extents@.len() implies run_backed(
                after,
                #[trigger] run_extents@[i],
            ) by {
                let extent = run_extents@[i];
                assert(run_backed(before, extent));
                lemma_part_kept(
                    before,
                    after,
                    extent.run.storage_node,
                    extent.run.log_id,
                    extent.run.log_payload_offset as int,
                    extent.payload_len as int,
                    extent.run.integrity,
                );
            }
        }
    }
}

/// Records' bytes stay while the logs grow.
proof fn lemma_records_byte_kept(
    before: RunLogMap,
    after: RunLogMap,
    records: Seq<AppendStreamRunRecord>,
    byte: int,
)
    requires
        keeps_logs(before, after),
        forall|i: int| 0 <= i < records.len() ==> stream_record_wf(before, #[trigger] records[i]),
    ensures
        records_byte(after, records, byte) == records_byte(before, records, byte),
    decreases records.len(),
{
    if records.len() > 0 {
        let last = records.last();
        assert(records[records.len() - 1] == last);
        assert(stream_record_wf(before, last));
        if record_contains(last, byte) {
            let key = (last.run.storage_node, last.run.log_id);
            assert(before.contains_key(key));
        } else {
            let shorter = records.drop_last();
            assert forall|i: int| 0 <= i < shorter.len() implies stream_record_wf(
                before,
                #[trigger] shorter[i],
            ) by {
                assert(stream_record_wf(before, records[i]));
            }
            lemma_records_byte_kept(before, after, shorter, byte);
        }
    }
}

/// A place in a stream that is about to be written.
pub struct PreparedAppendStreamRun {
    pub stream: AppendStream,
    pub ticket_id: AppendTicketId,
    pub range: ByteRange,
    pub storage_node: StorageNodeId,
    pub run_id: AppendRunId,
}

/// The log that a stream writes to.
pub open spec fn append_run_log_id(stream_id: AppendStreamId) -> u64 {
    (stream_id.0 % 0x1_0000_0000_0000_0000) as u64
}

fn log_id_of(stream_id: AppendStreamId) -> (log_id: u64)
    ensures
        log_id == append_run_log_id(stream_id),
{
    (stream_id.0 % 0x1_0000_0000_0000_0000) as u64
}

/// Whether a run is that of bytes that were added to a stream, checked as a policy
/// asks.
pub open spec fn run_taken(
    run: AppendLogRun,
    token: AppendStream,
    ticket_id: AppendTicketId,
    offset: int,
    data: Seq<u8>,
    policy: PayloadIntegrity,
) -> bool {
    &&& run.run_id.0 == ticket_id.0
    &&& run.stream_id == token.stream_id
    &&& run.writer_epoch == token.writer_epoch
    &&& run.keyspace_id == token.keyspace_id
    &&& run.file_id == token.file_id
    &&& run.file_offset_start == offset
    &&& run.payload_len == data.len()
    &&& run.log_record_bytes == data.len()
    &&& run.log_id == append_run_log_id(token.stream_id)
    &&& run.integrity == payload_integrity_of(policy, data)
}

impl LocalCoordinator {
    /// The byte that an open stream has taken in for a place of its file.
    pub open spec fn stream_byte(&self, stream_id: AppendStreamId, byte: int) -> Option<u8> {
        records_byte(
            self.logs(),
            self.metadata.append_streams@[stream_id.0].state.records@,
            byte,
        )
    }

    pub open spec fn stream_tail(&self, stream_id: AppendStreamId) -> int {
        self.metadata.append_streams@[stream_id.0].accepted_tail as int
    }

    /// Whether only streams and their logs changed.
    pub open spec fn only_streams_changed(&self, before: &LocalCoordinator) -> bool {
        &&& self.wf()
        &&& self.keeps_store(before)
        &&& self.block_writer_epochs == before.block_writer_epochs
        &&& self.storage_nodes.segments == before.storage_nodes.segments
        &&& self.storage_nodes.node_ids@ == before.storage_nodes.node_ids@
        &&& self.storage_nodes.next_segment_id == before.storage_nodes.next_segment_id
        &&& self.storage_nodes.next_offset == before.storage_nodes.next_offset
        &&& self.next_write_intent == before.next_write_intent
        &&& self.next_extent_id == before.next_extent_id
        &&& self.read_profiler == before.read_profiler
        &&& self.native_file_batch_profiler == before.native_file_batch_profiler
        &&& self.metadata == (MetadataInner {
            append_streams: self.metadata.append_streams,
            file_writer_epochs: self.metadata.file_writer_epochs,
            append_publish_tickets: self.metadata.append_publish_tickets,
            next_append_stream_id: self.metadata.next_append_stream_id,
            next_append_ticket_id: self.metadata.next_append_ticket_id,
            next_append_publish_ticket_id: self.metadata.next_append_publish_ticket_id,
            ..before.metadata
        })
        &&& self.metadata.served_kept(&before.metadata)
    }

    /// Opens a stream at the end of a file; streams that were open there are
    /// fenced.
    pub fn open_append_stream(&mut self, keyspace_id: KeyspaceId, file_id: FileId) -> (result:
        Result<AppendStream, StorageError>)
        requires
            old(self).wf(),
        ensures
            final(self).only_streams_changed(old(self)),
            result is Ok <==> old(self).metadata.has_file(keyspace_id, file_id) && old(
                self,
            ).metadata.next_append_stream_id < u128::MAX && file_epoch(
                old(self).metadata.file_writer_epochs@,
                keyspace_id,
                file_id,
            ) < u64::MAX,
            result matches Ok(token) ==> {
                &&& token.keyspace_id == keyspace_id
                &&& token.file_id == file_id
                &&& token.writer_epoch.0 == file_epoch(
                    old(self).metadata.file_writer_epochs@,
                    keyspace_id,
                    file_id,
                ) + 1
                &&& token.visible_base_size == old(self).file_size(keyspace_id, file_id)
                &&& token.stream_id.0 == old(self).metadata.next_append_stream_id
                &&& token.base_version == old(self).metadata.file_head(
                    keyspace_id,
                    file_id,
                )->0.version
                &&& final(self).metadata.append_streams@.remove(token.stream_id.0) == old(
                    self,
                ).metadata.append_streams@.map_values(
                    |stream: LiveAppendStream| fenced(stream, keyspace_id, file_id),
                )
                &&& final(self).metadata.append_streams@[token.stream_id.0].state.published_through
                    == token.visible_base_size
                &&& token_open(final(self).metadata.append_streams@, token)
                &&& final(self).stream_tail(token.stream_id) == token.visible_base_size
                &&& forall|other: AppendStream|
                    #![trigger token_open(final(self).metadata.append_streams@, other)]
                    token_open(final(self).metadata.append_streams@, other) && other.keyspace_id
                        == keyspace_id && other.file_id == file_id ==> other == token
            },
            !old(self).metadata.has_file(keyspace_id, file_id) ==> (result matches Err(error)
                && error is NotFound),
            final(self).metadata.append_publish_tickets == old(
                self,
            ).metadata.append_publish_tickets,
            final(self).append_run_logs == old(self).append_run_logs,
            final(self).storage_nodes == old(self).storage_nodes,
            final(self).next_write_intent == old(self).next_write_intent,
            result is Err ==> *final(self) == *old(self),
    {
        let ghost before = *self;
        let result = self.metadata.open_append_stream(
            keyspace_id,
            file_id,
            Ghost(before.block_size()),
            Ghost(before.logs()),
        );
        proof {
            assert(self.metadata.devices_wf(self.block_size()));
            assert(self.metadata.files_wf(self.block_size()));
        }
        result
    }

    /// The storage node that a stream's log is on; it stays the same.
    fn append_stream_storage_node(&mut self, stream_id: AppendStreamId) -> (result: Result<
        StorageNodeId,
        StorageError,
    >)
        requires
            old(self).wf(),
        ensures
            final(self).wf(),
            final(self).metadata == old(self).metadata,
            final(self).observability == old(self).observability,
            final(self).config == old(self).config,
            final(self).append_run_logs == old(self).append_run_logs,
            final(self).storage_nodes.segments == old(self).storage_nodes.segments,
            final(self).storage_nodes.node_ids@ == old(self).storage_nodes.node_ids@,
            final(self).storage_nodes.next_segment_id == old(self).storage_nodes.next_segment_id,
            final(self).storage_nodes.next_offset == old(self).storage_nodes.next_offset,
            final(self).next_write_intent == old(self).next_write_intent,
            final(self).next_extent_id == old(self).next_extent_id,
            final(self).read_profiler == old(self).read_profiler,
            final(self).native_file_batch_profiler == old(self).native_file_batch_profiler,
            final(self).block_writer_epochs == old(self).block_writer_epochs,
            result matches Ok(storage_node) ==> final(self).storage_nodes.has_node(storage_node)
                && final(self).append_stream_storage_lanes@.contains_key(stream_id.0)
                && final(self).append_stream_storage_lanes@[stream_id.0] == storage_node,
            result is Err <==> old(self).append_stream_storage_lanes@.contains_key(stream_id.0)
                && !old(self).storage_nodes.has_node(
                old(self).append_stream_storage_lanes@[stream_id.0],
            ),
            old(self).append_stream_storage_lanes@.contains_key(stream_id.0) ==> *final(self)
                == *old(self),
            result matches Ok(storage_node) ==> storage_node == if old(
                self,
            ).append_stream_storage_lanes@.contains_key(stream_id.0) {
                old(self).append_stream_storage_lanes@[stream_id.0]
            } else {
                old(self).storage_nodes.in_turn()
            },
    {
        match self.append_stream_storage_lanes.get(stream_id.raw()) {
            Some(storage_node) => {
                let storage_node = *storage_node;
                if !self.storage_nodes.contains_node(storage_node) {
                    return Err(StorageError::not_found("storage_node", storage_node.raw()));
                }
                return Ok(storage_node);
            },
            None => {},
        }
        let storage_node = self.storage_nodes.choose_storage_node();
        self.append_stream_storage_lanes.insert(stream_id.raw(), storage_node);
        Ok(storage_node)
    }

    /// Whether bytes can be added to a stream.
    pub open spec fn takes_append(&self, token: AppendStream, len: int) -> bool {
        &&& len > 0
        &&& token_open(self.metadata.append_streams@, token)
        &&& self.stream_tail(token.stream_id) + len <= u64::MAX
        &&& self.metadata.next_append_ticket_id < u128::MAX
        &&& self.append_stream_storage_lanes@.contains_key(token.stream_id.0)
            ==> self.storage_nodes.has_node(
            self.append_stream_storage_lanes@[token.stream_id.0],
        )
    }

    /// Whether an append was counted as an attempt to write and has used up its
    /// number, be it taken or not; one without bytes is not.
    pub open spec fn append_counted(&self, before: &LocalCoordinator, len: int) -> bool {
        &&& self.metadata.next_append_ticket_id == if len == 0
            || before.metadata.next_append_ticket_id == u128::MAX {
            before.metadata.next_append_ticket_id as int
        } else {
            before.metadata.next_append_ticket_id + 1
        }
        &&& self.observability.counters == if len == 0 {
            before.observability.counters
        } else {
            counted(before.observability.counters, StorageEventKind::CoordinatorWriteStarted)
        }
    }

    /// Finds a place in a stream for some bytes.
    fn prepare_append_stream_run(&mut self, token: &AppendStream, data_len: usize) -> (result:
        Result<PreparedAppendStreamRun, StorageError>)
        requires
            old(self).wf(),
        ensures
            final(self).wf(),
            final(self).config == old(self).config,
            final(self).append_run_logs == old(self).append_run_logs,
            final(self).storage_nodes.segments == old(self).storage_nodes.segments,
            final(self).storage_nodes.node_ids@ == old(self).storage_nodes.node_ids@,
            final(self).storage_nodes.next_segment_id == old(self).storage_nodes.next_segment_id,
            final(self).storage_nodes.next_offset == old(self).storage_nodes.next_offset,
            final(self).next_write_intent == old(self).next_write_intent,
            final(self).next_extent_id == old(self).next_extent_id,
            final(self).read_profiler == old(self).read_profiler,
            final(self).native_file_batch_profiler == old(self).native_file_batch_profiler,
            final(self).block_writer_epochs == old(self).block_writer_epochs,
            final(self).metadata == (MetadataInner {
                next_append_ticket_id: final(self).metadata.next_append_ticket_id,
                ..old(self).metadata
            }),
            result is Ok <==> old(self).takes_append(*token, data_len as int),
            result matches Ok(prepared) ==> prepared.stream == *token && prepared.range
                == (ByteRange {
                offset: old(self).stream_tail(token.stream_id) as u64,
                len: data_len as u64,
            }) && prepared.ticket_id.0 == old(self).metadata.next_append_ticket_id
                && final(self).metadata.next_append_ticket_id == prepared.ticket_id.0 + 1
                && prepared.run_id.0 == prepared.ticket_id.0,
            result matches Ok(prepared) ==> prepared.storage_node == if old(
                self,
            ).append_stream_storage_lanes@.contains_key(token.stream_id.0) {
                old(self).append_stream_storage_lanes@[token.stream_id.0]
            } else {
                old(self).storage_nodes.in_turn()
            },
            !token_open(old(self).metadata.append_streams@, *token) && data_len > 0 && old(
                self,
            ).metadata.next_append_ticket_id < u128::MAX ==> (result matches Err(error)
                && error is Conflict),
            result is Err ==> *final(self) == (LocalCoordinator {
                observability: final(self).observability,
                metadata: MetadataInner {
                    next_append_ticket_id: final(self).metadata.next_append_ticket_id,
                    ..old(self).metadata
                },
                ..*old(self)
            }),
            final(self).append_counted(old(self), data_len as int),
    {
        if data_len == 0 {
            return Err(StorageError::invalid_argument("append payload must not be empty"));
        }
        self.record_event(StorageEventKind::CoordinatorWriteStarted, None, None, None);
        if self.metadata.next_append_ticket_id == u128::MAX {
            return Err(StorageError::conflict("append ticket id overflow"));
        }
        let ticket_id = AppendTicketId(self.metadata.next_append_ticket_id);
        self.metadata.next_append_ticket_id = self.metadata.next_append_ticket_id + 1;
        assert(self.metadata.devices_wf(self.block_size()));
        assert(self.metadata.files_wf(self.block_size()));
        let range = match self.metadata.prepare_append_stream_range(token, data_len as u64) {
            Ok(range) => range,
            Err(error) => return Err(error),
        };
        let storage_node = match self.append_stream_storage_node(token.stream_id) {
            Ok(storage_node) => storage_node,
            Err(error) => return Err(error),
        };
        Ok(
            PreparedAppendStreamRun {
                stream: *token,
                ticket_id,
                range,
                storage_node,
                run_id: AppendRunId(ticket_id.0),
            },
        )
    }

    /// Puts the bytes of a run into its log.
    fn write_append_run_payload_to_memory(
        &mut self,
        prepared: &PreparedAppendStreamRun,
        data: &[u8],
        payload_integrity: PayloadIntegrity,
    ) -> (run: AppendLogRun)
        requires
            old(self).wf(),
            prepared.range.len == data@.len(),
            data@.len() > 0,
            prepared.range.end() <= u64::MAX,
        ensures
            final(self).wf(),
            *final(self) == (LocalCoordinator {
                append_run_logs: final(self).append_run_logs,
                ..*old(self)
            }),
            keeps_logs(old(self).logs(), final(self).logs()),
            run.run_id == prepared.run_id,
            run.storage_node == prepared.storage_node,
            run.stream_id == prepared.stream.stream_id,
            run_taken(
                run,
                prepared.stream,
                AppendTicketId(prepared.run_id.0),
                prepared.range.offset as int,
                data@,
                payload_integrity,
            ),
            stream_record_wf(
                final(self).logs(),
                AppendStreamRunRecord {
                    ticket_id: prepared.ticket_id,
                    offset: prepared.range.offset,
                    len: prepared.range.len,
                    run,
                },
            ),
            final(self).logs()[(run.storage_node, run.log_id)].subrange(
                run.log_payload_offset as int,
                run.log_payload_offset + data@.len(),
            ) == data@,
    {
        let ghost before = *self;
        let log_id = log_id_of(prepared.stream.stream_id);
        let integrity = segment_payload_integrity(payload_integrity, data);
        let offset = self.append_run_logs.append(prepared.storage_node, log_id, data);
        let run = AppendLogRun {
            run_id: prepared.run_id,
            storage_node: prepared.storage_node,
            stream_id: prepared.stream.stream_id,
            writer_epoch: prepared.stream.writer_epoch,
            keyspace_id: prepared.stream.keyspace_id,
            file_id: prepared.stream.file_id,
            file_offset_start: prepared.range.offset,
            payload_len: data.len() as u64,
            log_id,
            log_payload_offset: offset as u64,
            log_record_bytes: data.len() as u64,
            integrity,
        };
        proof {
            let key = (prepared.storage_node, log_id);
            let log = self.logs()[key];
            assert(log.subrange(offset as int, offset + data@.len()) =~= data@);
            lemma_tree_runs_kept(self.nodes(), before.logs(), self.logs());
            lemma_streams_kept(
                before.logs(),
                self.logs(),
                self.metadata.append_streams@,
                self.metadata.next_append_stream_id,
            );
        }
        run
    }

    /// Adds bytes to the end of a stream, with a checksum.
    pub fn append_stream(
        &mut self,
        stream: &AppendStream,
        data: &[u8],
        durability: WriteDurability,
    ) -> (result: Result<AppendTicket, StorageError>)
        requires
            old(self).wf(),
        ensures
            final(self).only_streams_changed(old(self)),
            result is Ok <==> old(self).takes_append(*stream, data@.len() as int),
            result matches Ok(ticket) ==> final(self).appended(
                old(self),
                *stream,
                data@,
                durability,
                PayloadIntegrity::Verified,
                ticket,
            ),
            data@.len() == 0 ==> (result matches Err(error) && error is InvalidArgument)
                && *final(self) == *old(self),
            result is Err ==> *final(self) == (LocalCoordinator {
                observability: final(self).observability,
                metadata: MetadataInner {
                    next_append_ticket_id: final(self).metadata.next_append_ticket_id,
                    ..old(self).metadata
                },
                ..*old(self)
            }),
            final(self).append_counted(old(self), data@.len() as int),
    {
        self.append_stream_with_integrity(stream, data, durability, PayloadIntegrity::Verified)
    }

    /// Whether bytes were added to the end of a stream and nothing else.
    pub open spec fn appended(
        &self,
        before: &LocalCoordinator,
        token: AppendStream,
        data: Seq<u8>,
        durability: WriteDurability,
        payload_integrity: PayloadIntegrity,
        ticket: AppendTicket,
    ) -> bool {
        let tail = before.stream_tail(token.stream_id);
        let old_stream = before.metadata.append_streams@[token.stream_id.0];
        let new_stream = self.metadata.append_streams@[token.stream_id.0];
        &&& ticket == (AppendTicket {
            keyspace_id: token.keyspace_id,
            file_id: token.file_id,
            stream_id: token.stream_id,
            ticket_id: AppendTicketId(before.metadata.next_append_ticket_id),
            writer_epoch: token.writer_epoch,
            range: ByteRange { offset: tail as u64, len: data.len() as u64 },
        })
        &&& token_open(self.metadata.append_streams@, token)
        &&& self.metadata.append_streams@.remove(token.stream_id.0)
            == before.metadata.append_streams@.remove(token.stream_id.0)
        &&& self.metadata == (MetadataInner {
            append_streams: self.metadata.append_streams,
            next_append_ticket_id: self.metadata.next_append_ticket_id,
            ..before.metadata
        })
        &&& self.metadata.next_append_ticket_id == before.metadata.next_append_ticket_id + 1
        &&& new_stream.state.records@.len() == old_stream.state.records@.len() + 1
        &&& new_stream.state.records@.drop_last() == old_stream.state.records@
        &&& new_stream.state.records@.last() == (AppendStreamRunRecord {
            ticket_id: ticket.ticket_id,
            offset: tail as u64,
            len: data.len() as u64,
            run: new_stream.state.records@.last().run,
        })
        &&& run_taken(
            new_stream.state.records@.last().run,
            token,
            ticket.ticket_id,
            tail,
            data,
            payload_integrity,
        )
        &&& new_stream.base_writer_epoch == old_stream.base_writer_epoch
        &&& self.stream_tail(token.stream_id) == tail + data.len()
        &&& new_stream.state.published_through == old_stream.state.published_through
        &&& new_stream.state.durable_through == if durability == WriteDurability::Flushed {
            tail + data.len()
        } else {
            old_stream.state.durable_through as int
        }
        &&& forall|byte: int|
            old_stream.state.published_through <= byte < tail + data.len() ==> #[trigger]
                self.stream_byte(token.stream_id, byte) == if byte < tail {
                before.stream_byte(token.stream_id, byte)
            } else {
                Some(data[byte - tail])
            }
    }

    #[verifier::rlimit(60)]
    pub fn append_stream_with_integrity(
        &mut self,
        stream: &AppendStream,
        data: &[u8],
        durability: WriteDurability,
        payload_integrity: PayloadIntegrity,
    ) -> (result: Result<AppendTicket, StorageError>)
        requires
            old(self).wf(),
        ensures
            final(self).only_streams_changed(old(self)),
            result is Ok <==> old(self).takes_append(*stream, data@.len() as int),
            result matches Ok(ticket) ==> final(self).appended(
                old(self),
                *stream,
                data@,
                durability,
                payload_integrity,
                ticket,
            ),
            data@.len() == 0 ==> (result matches Err(error) && error is InvalidArgument)
                && *final(self) == *old(self),
            result is Err ==> *final(self) == (LocalCoordinator {
                observability: final(self).observability,
                metadata: MetadataInner {
                    next_append_ticket_id: final(self).metadata.next_append_ticket_id,
                    ..old(self).metadata
                },
                ..*old(self)
            }),
            final(self).append_counted(old(self), data@.len() as int),
    {
        let ghost before = *self;
        if data.len() == 0 {
            return Err(StorageError::invalid_argument("append payload must not be empty"));
        }
        let prepared = match self.prepare_append_stream_run(stream, data.len()) {
            Ok(prepared) => prepared,
            Err(error) => return Err(error),
        };
        let run = self.write_append_run_payload_to_memory(&prepared, data, payload_integrity);
        let ghost written = *self;
        let ticket = match self.metadata.record_append_stream_run(
            &prepared.stream,
            prepared.ticket_id,
            prepared.range,
            run,
            Ghost(written.logs()),
        ) {
            Ok(ticket) => ticket,
            Err(error) => {
                assert(false);
                return Err(error);
            },
        };
        let ghost recorded = *self;
        proof {
            assert(self.metadata.devices_wf(self.block_size()));
            assert(self.metadata.files_wf(self.block_size()));
            assert(self.wf());
            let tail = before.stream_tail(stream.stream_id);
            let old_stream = before.metadata.append_streams@[stream.stream_id.0];
            assert(stream_wf(before.logs(), old_stream, stream.stream_id.0));
            assert forall|byte: int|
                old_stream.state.published_through <= byte < tail + data@.len() implies #[trigger]
                self.stream_byte(stream.stream_id, byte) == (if byte < tail {
                before.stream_byte(stream.stream_id, byte)
            } else {
                Some(data@[byte - tail])
            }) by {
                let records = self.metadata.append_streams@[stream.stream_id.0].state.records@;
                let old_records = old_stream.state.records@;
                assert(records.drop_last() =~= old_records);
                let log = self.logs()[(run.storage_node, run.log_id)];
                if byte < tail {
                    lemma_records_byte_kept(before.logs(), self.logs(), old_records, byte);
                } else {
                    assert(log.subrange(
                        run.log_payload_offset as int,
                        run.log_payload_offset + data@.len(),
                    )[byte - tail] == data@[byte - tail]);
                }
            }
        }
        match durability {
            WriteDurability::Flushed => {
                match self.metadata.mark_append_stream_durable(stream, Ghost(recorded.logs())) {
                    Ok(()) => {},
                    Err(error) => {
                        assert(false);
                        return Err(error);
                    },
                }
                proof {
                    assert(self.metadata.devices_wf(self.block_size()));
                    assert(self.metadata.files_wf(self.block_size()));
                    assert(self.wf());
                    let tail = before.stream_tail(stream.stream_id);
                    let old_stream = before.metadata.append_streams@[stream.stream_id.0];
                    assert forall|byte: int|
                        old_stream.state.published_through <= byte < tail
                            + data@.len() implies #[trigger] self.stream_byte(
                        stream.stream_id,
                        byte,
                    ) == (if byte < tail {
                        before.stream_byte(stream.stream_id, byte)
                    } else {
                        Some(data@[byte - tail])
                    }) by {
                        assert(recorded.stream_byte(stream.stream_id, byte) == self.stream_byte(
                            stream.stream_id,
                            byte,
                        ));
                    }
                }
            },
            WriteDurability::Acknowledged => {},
        }
        proof {
            let id = stream.stream_id.0;
            assert(self.metadata.append_streams@.remove(id)
                =~= before.metadata.append_streams@.remove(id));
            assert(self.metadata.append_streams@[id].state.records@.drop_last()
                =~= before.metadata.append_streams@[id].state.records@);
        }
        Ok(ticket)
    }

    /// Asks for a stream to be published up to a place.
    pub fn submit_append_publish(&mut self, stream: &AppendStream, publish_through: u64) -> (result:
        Result<AppendPublishTicket, StorageError>)
        requires
            old(self).wf(),
        ensures
            final(self).only_streams_changed(old(self)),
            final(self).metadata.append_streams == old(self).metadata.append_streams,
            final(self).metadata.file_writer_epochs == old(self).metadata.file_writer_epochs,
            final(self).metadata.next_append_stream_id == old(
                self,
            ).metadata.next_append_stream_id,
            final(self).metadata.next_append_ticket_id == old(
                self,
            ).metadata.next_append_ticket_id,
            *final(self) == (LocalCoordinator { metadata: final(self).metadata, ..*old(self) }),
            final(self).metadata.next_append_publish_ticket_id == if old(
                self,
            ).metadata.next_append_publish_ticket_id == u128::MAX {
                u128::MAX as int
            } else {
                old(self).metadata.next_append_publish_ticket_id + 1
            },
            result is Err ==> final(self).metadata == (MetadataInner {
                next_append_publish_ticket_id: final(self).metadata.next_append_publish_ticket_id,
                ..old(self).metadata
            }),
            result matches Ok(ticket) ==> ticket.ticket_id.0 == old(
                self,
            ).metadata.next_append_publish_ticket_id
                && final(self).metadata.append_publish_tickets@.remove(ticket.ticket_id.0) == old(
                self,
            ).metadata.append_publish_tickets@.remove(ticket.ticket_id.0),
            final(self).append_run_logs == old(self).append_run_logs,
            result is Ok <==> token_open(old(self).metadata.append_streams@, *stream) && old(
                self,
            ).metadata.append_streams@[stream.stream_id.0].state.published_through
                < publish_through <= old(self).stream_tail(stream.stream_id) && old(
                self,
            ).metadata.next_append_publish_ticket_id < u128::MAX,
            result matches Ok(ticket) ==> ticket.keyspace_id == stream.keyspace_id && ticket.file_id
                == stream.file_id && ticket.stream_id == stream.stream_id && ticket.writer_epoch
                == stream.writer_epoch && ticket.publish_through == publish_through
                && final(self).metadata.append_publish_tickets@.contains_key(ticket.ticket_id.0)
                && final(self).metadata.append_publish_tickets@[ticket.ticket_id.0]
                == (AppendPublishTicketRecord { ticket, stream: *stream, completed: None }),
            !token_open(old(self).metadata.append_streams@, *stream) ==> (result matches Err(error)
                && error is Conflict),
    {
        let ghost before = *self;
        let result = self.metadata.submit_append_publish(stream, publish_through);
        proof {
            if let Ok(ticket) = result {
                assert(self.metadata.append_publish_tickets@.remove(ticket.ticket_id.0)
                    =~= before.metadata.append_publish_tickets@.remove(ticket.ticket_id.0));
            }
            assert(self.metadata.devices_wf(self.block_size()));
            assert(self.metadata.files_wf(self.block_size()));
        }
        result
    }

    /// Gives a stream up; what it has not published is gone.
    pub fn release_append_stream(&mut self, stream: &AppendStream) -> (result: Result<
        (),
        StorageError,
    >)
        requires
            old(self).wf(),
        ensures
            final(self).only_streams_changed(old(self)),
            result is Ok <==> token_open(old(self).metadata.append_streams@, *stream),
            result is Ok ==> {
                let before = old(self).metadata.append_streams@[stream.stream_id.0];
                &&& !token_open(final(self).metadata.append_streams@, *stream)
                &&& final(self).metadata.append_streams@ == old(
                    self,
                ).metadata.append_streams@.insert(
                    stream.stream_id.0,
                    LiveAppendStream {
                        state: AppendStreamState {
                            status: AppendStreamStatus::Released,
                            ..before.state
                        },
                        ..before
                    },
                )
                &&& final(self).append_stream_storage_lanes@ == old(
                    self,
                ).append_stream_storage_lanes@.remove(stream.stream_id.0)
                &&& *final(self) == (LocalCoordinator {
                    metadata: MetadataInner {
                        append_streams: final(self).metadata.append_streams,
                        ..old(self).metadata
                    },
                    append_stream_storage_lanes: final(self).append_stream_storage_lanes,
                    ..*old(self)
                })
            },
            result matches Err(error) ==> error is Conflict && *final(self) == *old(self),
    {
        let ghost before = *self;
        let ended = self.metadata.end_append_stream(
            stream,
            AppendStreamStatus::Released,
            Ghost(before.logs()),
        );
        proof {
            assert(self.metadata.devices_wf(self.block_size()));
            assert(self.metadata.files_wf(self.block_size()));
        }
        match ended {
            Ok(()) => {},
            Err(error) => return Err(error),
        }
        self.append_stream_storage_lanes.remove(stream.stream_id.raw());
        Ok(())
    }

    /// Breaks a stream off.
    pub fn abort_append_stream(&mut self, stream: &AppendStream) -> (result: Result<
        (),
        StorageError,
    >)
        requires
            old(self).wf(),
        ensures
            final(self).only_streams_changed(old(self)),
            result is Ok <==> token_open(old(self).metadata.append_streams@, *stream),
            result is Ok ==> {
                let before = old(self).metadata.append_streams@[stream.stream_id.0];
                &&& !token_open(final(self).metadata.append_streams@, *stream)
                &&& final(self).metadata.append_streams@ == old(
                    self,
                ).metadata.append_streams@.insert(
                    stream.stream_id.0,
                    LiveAppendStream {
                        state: AppendStreamState {
                            status: AppendStreamStatus::Aborted,
                            ..before.state
                        },
                        ..before
                    },
                )
                &&& final(self).append_stream_storage_lanes@ == old(
                    self,
                ).append_stream_storage_lanes@.remove(stream.stream_id.0)
                &&& *final(self) == (LocalCoordinator {
                    metadata: MetadataInner {
                        append_streams: final(self).metadata.append_streams,
                        ..old(self).metadata
                    },
                    append_stream_storage_lanes: final(self).append_stream_storage_lanes,
                    ..*old(self)
                })
            },
            result matches Err(error) ==> error is Conflict && *final(self) == *old(self),
    {
        let ghost before = *self;
        let ended = self.metadata.end_append_stream(
            stream,
            AppendStreamStatus::Aborted,
            Ghost(before.logs()),
        );
        proof {
            assert(self.metadata.devices_wf(self.block_size()));
            assert(self.metadata.files_wf(self.block_size()));
        }
        match ended {
            Ok(()) => {},
            Err(error) => return Err(error),
        }
        self.append_stream_storage_lanes.remove(stream.stream_id.raw());
        Ok(())
    }
}

} // verus!
