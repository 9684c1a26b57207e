//! Writes to a durable store.
use vstd::prelude::*;

use crate::batch::{
    DEFAULT_BLOCK_BATCH_MAX_BYTES, PayloadByte, batch_at, batch_counted, batch_valid,
};
use crate::block_api::{
    BlockBatchCommit, BlockBatchWrite, ByteRange, DeviceSpec, PayloadIntegrity, WriteCommit,
    WriteDurability,
};
use crate::block_commit::{BlockBatchCommitWithDelta, delta_edits};
use crate::block_requests::lemma_single_write_size;
use crate::coordinator::LocalCoordinator;
use crate::data_log::{DurableDataLogRef, refs_in};
use crate::diagnostics::{DiagnosticsSnapshot, MaintenanceObservation};
use crate::durable::{DurableCoordinator, PersistDue};
use crate::error::StorageError;
use crate::id::{CommitSeq, DeviceId};
use crate::maintenance::{
    DurableCompactionReport, MaintenanceProgress, MaintenanceTickPlan, bytes_copied_by,
    bytes_deleted_by, combine_reports, compactable_logs, reports_together,
};
use crate::metadata::{LiveAppendStream, MetadataInner, stream_wf};
use crate::metadata_records::AppendStreamState;
use crate::metadata_streams::token_open;
use crate::native_api::{AppendStream, AppendTicket};
use crate::observability::{StorageEventKind, plan_counted, tick_counted, write_counted};
use crate::reach::reaches;
use crate::segment_records::SegmentLifecycleState;
use crate::stored::{batch_policies, block_put, segments_added};

verus! {

/// A batch of one write changes just the bytes of that write.
proof fn lemma_single_write(
    offset: u64,
    data: Seq<u8>,
    payload_integrity: PayloadIntegrity,
    batch: Seq<BlockBatchWrite>,
    spec: DeviceSpec,
)
    requires
        batch.len() == 1,
        batch[0].offset == offset,
        batch[0].bytes@ == data,
        batch[0].payload_integrity == payload_integrity,
        data.len() > 0,
        (ByteRange { offset, len: data.len() as u64 }).fits_device(spec),
    ensures
        batch_valid(batch, spec),
        forall|byte: int| #[trigger]
            batch_at(batch, byte) == (if offset <= byte < offset + data.len() {
                Some(PayloadByte { value: data[byte - offset], payload_integrity })
            } else {
                None
            }),
{
    assert(batch.drop_last() =~= Seq::<BlockBatchWrite>::empty());
    assert forall|byte: int| #[trigger] batch_at(batch, byte) == (if offset <= byte < offset
        + data.len() {
        Some(PayloadByte { value: data[byte - offset], payload_integrity })
    } else {
        None
    }) by {
        reveal_with_fuel(batch_at, 2);
    }
}

impl DurableCoordinator {
    /// Whether a block write's delta is kept until it is durable, and what is
    /// due for it: a flushed write is answered once it is durable, and the
    /// segments of another are written ahead of it.
    pub open spec fn block_write_recorded(
        &self,
        before: &DurableCoordinator,
        device_id: DeviceId,
        commit_seq: CommitSeq,
        durability: WriteDurability,
    ) -> bool {
        let delta = self.pending_block_deltas@.last();
        let seq = commit_seq.0 as u128;
        &&& self.pending_block_deltas@ == before.pending_block_deltas@.push(delta)
        &&& delta.commit_seq == commit_seq
        &&& delta.device_id == device_id
        &&& delta.entries@.len() > 0
        &&& self.local.metadata.block_commit_recorded(
            &before.local.metadata,
            device_id,
            commit_seq,
        )
        &&& self.local.device_edited(&before.local, device_id, delta_edits(delta.entries@))
        &&& match durability {
            WriteDurability::Flushed => self.due == PersistDue::BlockDeltas(commit_seq)
                && self.prestage == before.prestage,
            WriteDurability::Acknowledged => {
                &&& self.due == PersistDue::Prestage(commit_seq)
                &&& self.prestage.in_flight@ == before.prestage.in_flight@.insert(seq, ())
                &&& self.prestage.failed@ == before.prestage.failed@.remove(seq)
            },
        }
    }

    /// Writes a batch to a device in one commit, and keeps its delta until it
    /// is durable. A flushed write is answered once the commit is durable; for
    /// another its segments are written ahead.
    pub fn commit_block_batch(
        &mut self,
        device_id: DeviceId,
        writes: &[BlockBatchWrite],
        durability: WriteDurability,
    ) -> (result: Result<BlockBatchCommit, StorageError>)
        requires
            old(self).wf(),
        ensures
            final(self).follows(old(self)),
            final(self).wf(),
            *final(self) == (DurableCoordinator {
                local: final(self).local,
                due: final(self).due,
                pending_block_deltas: final(self).pending_block_deltas,
                prestage: final(self).prestage,
                ..*old(self)
            }),
            final(self).local.only_device_changed(&old(self).local, device_id),
            final(self).local.moved_within(
                &old(self).local,
                old(self).local.device_bytes(device_id),
            ),
            result is Ok ==> old(self).local.metadata.has_device(device_id) && batch_valid(
                writes@,
                old(self).local.metadata.device_specs@[device_id.0],
            ) && final(self).local.batch_applied(&old(self).local, device_id, writes@),
            result matches Ok(commit) ==> {
                &&& commit.device_id == device_id
                &&& commit.write_count == writes@.len()
                &&& commit.durability == durability
                &&& commit.commit_seq
                    == final(self).local.metadata.device_heads@[device_id.0].latest_commit
                &&& commit.commit_seq.0 == old(self).local.metadata.next_commit_seq
                &&& commit.commit_seq.0 > old(
                    self,
                ).local.metadata.device_heads@[device_id.0].latest_commit.0
                &&& batch_counted(commit, writes@)
                &&& final(self).block_write_recorded(
                    old(self),
                    device_id,
                    commit.commit_seq,
                    durability,
                )
                &&& final(self).pending_block_deltas@.last().committed_bytes
                    == commit.committed_bytes
                &&& final(self).pending_block_deltas@.last().write_count == commit.write_count
                &&& final(self).pending_block_deltas@.last().collapsed_range_count
                    == commit.collapsed_range_count
            },
            result is Err ==> final(self).due == PersistDue::Nothing
                && final(self).pending_block_deltas == old(self).pending_block_deltas
                && final(self).prestage == old(self).prestage
                && final(self).local.metadata.device_heads == old(self).local.metadata.device_heads,
            result is Err ==> !old(self).local.metadata.has_device(device_id) || !batch_valid(
                writes@,
                old(self).local.metadata.device_specs@[device_id.0],
            ) || LocalCoordinator::batch_too_large(writes@)
                || !old(self).local.room_for(old(self).local.device_bytes(device_id)),
            !old(self).local.metadata.has_device(device_id) ==> (result matches Err(error)
                && error is NotFound),
            old(self).local.metadata.has_device(device_id) && (!batch_valid(
                writes@,
                old(self).local.metadata.device_specs@[device_id.0],
            ) || LocalCoordinator::batch_too_large(writes@)) ==> (result matches Err(error)
                && error is InvalidArgument) && final(self).local == old(self).local,
            result is Ok ==> final(self).local.batch_stored(&old(self).local, device_id, writes@),
            segments_added(
                old(self).local.segments(),
                final(self).local.segments(),
                batch_policies(writes@),
                old(self).local.block_size(),
                if result is Ok {
                    SegmentLifecycleState::Referenced
                } else {
                    SegmentLifecycleState::DurablePendingMetadata
                },
            ),
            result is Ok ==> old(self).local.entries_in_shards(
                device_id,
                final(self).pending_block_deltas@.last().entries@,
            ),
            result is Ok ==> write_counted(
                old(self).local.observability.counters,
                final(self).local.observability.counters,
                true,
            ),
    {
        self.due = PersistDue::Nothing;
        match self.local.commit_block_batch_with_delta(device_id, writes, durability) {
            Ok(committed) => {
                let BlockBatchCommitWithDelta { commit, delta } = committed;
                match delta {
                    Some(delta) => {
                        let seq = delta.commit_seq;
                        self.pending_block_deltas.push(delta);
                        match durability {
                            WriteDurability::Flushed => {
                                self.due = PersistDue::BlockDeltas(commit.commit_seq);
                            },
                            WriteDurability::Acknowledged => {
                                self.prestage.begin(seq);
                                self.due = PersistDue::Prestage(seq);
                            },
                        }
                    },
                    None => {},
                }
                Ok(commit)
            },
            Err(error) => Err(error),
        }
    }

    /// Writes bytes to a device.
    pub fn write_device_with_integrity(
        &mut self,
        device_id: DeviceId,
        offset: u64,
        data: &[u8],
        durability: WriteDurability,
        payload_integrity: PayloadIntegrity,
    ) -> (result: Result<WriteCommit, StorageError>)
        requires
            old(self).wf(),
        ensures
            final(self).follows(old(self)),
            final(self).wf(),
            *final(self) == (DurableCoordinator {
                local: final(self).local,
                due: final(self).due,
                pending_block_deltas: final(self).pending_block_deltas,
                prestage: final(self).prestage,
                ..*old(self)
            }),
            final(self).local.only_device_changed(&old(self).local, device_id),
            final(self).local.moved_within(
                &old(self).local,
                old(self).local.device_bytes(device_id),
            ),
            result is Ok ==> old(self).local.metadata.has_device(device_id) && (ByteRange {
                offset,
                len: data@.len() as u64,
            }).fits_device(old(self).local.metadata.device_specs@[device_id.0])
                && final(self).local.write_applied(&old(self).local, device_id, offset, data@),
            result matches Ok(commit) ==> commit == (WriteCommit {
                device_id,
                commit_seq: final(self).local.metadata.device_heads@[device_id.0].latest_commit,
                range: ByteRange { offset, len: data@.len() as u64 },
                durability,
            }),
            result matches Ok(commit) ==> if data@.len() == 0 {
                *final(self) == (DurableCoordinator { due: PersistDue::Nothing, ..*old(self) })
            } else {
                &&& commit.commit_seq.0 == old(self).local.metadata.next_commit_seq
                &&& commit.commit_seq.0 > old(
                    self,
                ).local.metadata.device_heads@[device_id.0].latest_commit.0
                &&& final(self).block_write_recorded(
                    old(self),
                    device_id,
                    commit.commit_seq,
                    durability,
                )
            },
            result is Err ==> final(self).due == PersistDue::Nothing
                && final(self).pending_block_deltas == old(self).pending_block_deltas
                && final(self).prestage == old(self).prestage
                && final(self).local.metadata.device_heads == old(self).local.metadata.device_heads,
            result is Err ==> !old(self).local.metadata.has_device(device_id) || !(ByteRange {
                offset,
                len: data@.len() as u64,
            }).fits_device(old(self).local.metadata.device_specs@[device_id.0]) || data@.len()
                > DEFAULT_BLOCK_BATCH_MAX_BYTES || !old(self).local.room_for(
                old(self).local.device_bytes(device_id),
            ),
            data@.len() == 0 && old(self).local.metadata.has_device(device_id) && (ByteRange {
                offset,
                len: 0,
            }).fits_device(old(self).local.metadata.device_specs@[device_id.0]) ==> result is Ok,
            !old(self).local.metadata.has_device(device_id) ==> result == Err::<
                WriteCommit,
                StorageError,
            >(StorageError::NotFound { kind: "device", id: device_id.0 }) && final(self).local
                == old(self).local,
            old(self).local.metadata.has_device(device_id) && !(ByteRange {
                offset,
                len: data@.len() as u64,
            }).fits_device(old(self).local.metadata.device_specs@[device_id.0]) ==> (
            result matches Err(error) && error is InvalidArgument) && final(self).local
                == old(self).local,
            old(self).local.metadata.has_device(device_id) && data@.len()
                > DEFAULT_BLOCK_BATCH_MAX_BYTES ==> (result matches Err(error)
                && error is InvalidArgument) && final(self).local == old(self).local,
            result is Ok ==> final(self).local.write_stored(
                &old(self).local,
                device_id,
                offset,
                data@.len() as int,
                payload_integrity,
            ),
            segments_added(
                old(self).local.segments(),
                final(self).local.segments(),
                set![payload_integrity],
                old(self).local.block_size(),
                if result is Ok {
                    SegmentLifecycleState::Referenced
                } else {
                    SegmentLifecycleState::DurablePendingMetadata
                },
            ),
            result is Ok && data@.len() > 0 ==> write_counted(
                old(self).local.observability.counters,
                final(self).local.observability.counters,
                true,
            ),
    {
        self.due = PersistDue::Nothing;
        let ghost before = self.local;
        let info = match self.local.device_info(device_id) {
            Ok(info) => info,
            Err(error) => return Err(error),
        };
        let len: u64 = data.len() as u64;
        let range = ByteRange { offset, len };
        match range.validate_for_device(&info.spec) {
            Ok(()) => {},
            Err(error) => return Err(error),
        }
        if len == 0 {
            return Ok(
                WriteCommit { device_id, commit_seq: info.latest_commit, range, durability },
            );
        }
        let bytes = vstd::slice::slice_to_vec(data);
        let mut writes: Vec<BlockBatchWrite> = Vec::new();
        writes.push(BlockBatchWrite { offset, bytes, payload_integrity });
        let ghost batch = writes@;
        proof {
            lemma_single_write_size(batch);
        }
        proof {
            lemma_single_write(offset, data@, payload_integrity, batch, info.spec);
            assert(batch_policies(batch) =~= set![payload_integrity]) by {
                assert(batch[0].payload_integrity == payload_integrity);
            }
        }
        match self.commit_block_batch(device_id, writes.as_slice(), durability) {
            Ok(commit) => {
                proof {
                    assert forall|byte: int|
                        0 <= byte < before.device_bytes(device_id) implies #[trigger]
                        self.local.device_byte(device_id, byte) == (if offset <= byte < offset
                        + data@.len() {
                        data@[byte - offset]
                    } else {
                        before.device_byte(device_id, byte)
                    }) by {
                        assert(batch_at(batch, byte) is Some <==> offset <= byte < offset
                            + data@.len());
                    }
                    assert(self.local.write_stored(
                        &before,
                        device_id,
                        offset,
                        data@.len() as int,
                        payload_integrity,
                    )) by {
                        assert forall|byte: int|
                            0 <= byte < before.device_bytes(device_id) implies block_put(
                            before.segments(),
                            self.local.segments(),
                            before.device_block(device_id, byte),
                            #[trigger] self.local.device_block(device_id, byte),
                            if offset <= byte < offset + data@.len() {
                                Some(payload_integrity)
                            } else {
                                None
                            },
                            self.local.block_size(),
                        ) by {
                            assert(batch_at(batch, byte) is Some <==> offset <= byte < offset
                                + data@.len());
                        }
                    }
                }
                Ok(
                    WriteCommit {
                        device_id: commit.device_id,
                        commit_seq: commit.commit_seq,
                        range,
                        durability: commit.durability,
                    },
                )
            },
            Err(error) => {
                Err(error)
            },
        }
    }

    /// Writes bytes to a device, with checksums.
    pub fn write_device(
        &mut self,
        device_id: DeviceId,
        offset: u64,
        data: &[u8],
        durability: WriteDurability,
    ) -> (result: Result<WriteCommit, StorageError>)
        requires
            old(self).wf(),
        ensures
            final(self).follows(old(self)),
            final(self).wf(),
            *final(self) == (DurableCoordinator {
                local: final(self).local,
                due: final(self).due,
                pending_block_deltas: final(self).pending_block_deltas,
                prestage: final(self).prestage,
                ..*old(self)
            }),
            final(self).local.only_device_changed(&old(self).local, device_id),
            final(self).local.moved_within(
                &old(self).local,
                old(self).local.device_bytes(device_id),
            ),
            result is Ok ==> old(self).local.metadata.has_device(device_id) && (ByteRange {
                offset,
                len: data@.len() as u64,
            }).fits_device(old(self).local.metadata.device_specs@[device_id.0])
                && final(self).local.write_applied(&old(self).local, device_id, offset, data@),
            result matches Ok(commit) ==> commit == (WriteCommit {
                device_id,
                commit_seq: final(self).local.metadata.device_heads@[device_id.0].latest_commit,
                range: ByteRange { offset, len: data@.len() as u64 },
                durability,
            }),
            result matches Ok(commit) ==> if data@.len() == 0 {
                *final(self) == (DurableCoordinator { due: PersistDue::Nothing, ..*old(self) })
            } else {
                &&& commit.commit_seq.0 == old(self).local.metadata.next_commit_seq
                &&& commit.commit_seq.0 > old(
                    self,
                ).local.metadata.device_heads@[device_id.0].latest_commit.0
                &&& final(self).block_write_recorded(
                    old(self),
                    device_id,
                    commit.commit_seq,
                    durability,
                )
            },
            result is Err ==> final(self).due == PersistDue::Nothing
                && final(self).pending_block_deltas == old(self).pending_block_deltas
                && final(self).prestage == old(self).prestage
                && final(self).local.metadata.device_heads == old(self).local.metadata.device_heads,
            result is Err ==> !old(self).local.metadata.has_device(device_id) || !(ByteRange {
                offset,
                len: data@.len() as u64,
            }).fits_device(old(self).local.metadata.device_specs@[device_id.0]) || data@.len()
                > DEFAULT_BLOCK_BATCH_MAX_BYTES || !old(self).local.room_for(
                old(self).local.device_bytes(device_id),
            ),
            data@.len() == 0 && old(self).local.metadata.has_device(device_id) && (ByteRange {
                offset,
                len: 0,
            }).fits_device(old(self).local.metadata.device_specs@[device_id.0]) ==> result is Ok,
            !old(self).local.metadata.has_device(device_id) ==> result == Err::<
                WriteCommit,
                StorageError,
            >(StorageError::NotFound { kind: "device", id: device_id.0 }) && final(self).local
                == old(self).local,
            old(self).local.metadata.has_device(device_id) && !(ByteRange {
                offset,
                len: data@.len() as u64,
            }).fits_device(old(self).local.metadata.device_specs@[device_id.0]) ==> (
            result matches Err(error) && error is InvalidArgument) && final(self).local
                == old(self).local,
            old(self).local.metadata.has_device(device_id) && data@.len()
                > DEFAULT_BLOCK_BATCH_MAX_BYTES ==> (result matches Err(error)
                && error is InvalidArgument) && final(self).local == old(self).local,
            result is Ok ==> final(self).local.write_stored(
                &old(self).local,
                device_id,
                offset,
                data@.len() as int,
                PayloadIntegrity::Verified,
            ),
            segments_added(
                old(self).local.segments(),
                final(self).local.segments(),
                set![PayloadIntegrity::Verified],
                old(self).local.block_size(),
                if result is Ok {
                    SegmentLifecycleState::Referenced
                } else {
                    SegmentLifecycleState::DurablePendingMetadata
                },
            ),
            result is Ok && data@.len() > 0 ==> write_counted(
                old(self).local.observability.counters,
                final(self).local.observability.counters,
                true,
            ),
    {
        self.write_device_with_integrity(
            device_id,
            offset,
            data,
            durability,
            PayloadIntegrity::Verified,
        )
    }

    /// Appends to a stream, with or without a checksum. A flushed append is
    /// answered once the stream is durable up to its end.
    pub fn append_stream_with_integrity(
        &mut self,
        stream: &AppendStream,
        data: &[u8],
        durability: WriteDurability,
        payload_integrity: PayloadIntegrity,
    ) -> (result: Result<AppendTicket, StorageError>)
        requires
            old(self).wf(),
        ensures
            final(self).follows(old(self)),
            final(self).wf(),
            *final(self) == (DurableCoordinator {
                local: final(self).local,
                due: final(self).due,
                ..*old(self)
            }),
            final(self).local.only_streams_changed(&old(self).local),
            result is Ok <==> old(self).local.takes_append(*stream, data@.len() as int),
            result matches Ok(ticket) ==> final(self).local.appended(
                &old(self).local,
                *stream,
                data@,
                WriteDurability::Acknowledged,
                payload_integrity,
                ticket,
            ),
            final(self).due == match (result, durability) {
                (Ok(ticket), WriteDurability::Flushed) => PersistDue::StreamPrefix {
                    stream: *stream,
                    through: stream_end(ticket),
                },
                _ => PersistDue::Nothing,
            },
            data@.len() == 0 ==> (result matches Err(error) && error is InvalidArgument)
                && final(self).local == old(self).local,
            result is Err ==> final(self).local == (LocalCoordinator {
                observability: final(self).local.observability,
                metadata: MetadataInner {
                    next_append_ticket_id: final(self).local.metadata.next_append_ticket_id,
                    ..old(self).local.metadata
                },
                ..old(self).local
            }),
            final(self).local.append_counted(&old(self).local, data@.len() as int),
    {
        let result = self.local.append_stream_with_integrity(
            stream,
            data,
            WriteDurability::Acknowledged,
            payload_integrity,
        );
        self.due =
        match (&result, durability) {
            (Ok(ticket), WriteDurability::Flushed) => PersistDue::StreamPrefix {
                stream: *stream,
                through: end_of(ticket),
            },
            _ => PersistDue::Nothing,
        };
        result
    }

    /// Appends to a stream, with a checksum.
    pub fn append_stream(
        &mut self,
        stream: &AppendStream,
        data: &[u8],
        durability: WriteDurability,
    ) -> (result: Result<AppendTicket, StorageError>)
        requires
            old(self).wf(),
        ensures
            final(self).follows(old(self)),
            final(self).wf(),
            *final(self) == (DurableCoordinator {
                local: final(self).local,
                due: final(self).due,
                ..*old(self)
            }),
            final(self).local.only_streams_changed(&old(self).local),
            result is Ok <==> old(self).local.takes_append(*stream, data@.len() as int),
            result matches Ok(ticket) ==> final(self).local.appended(
                &old(self).local,
                *stream,
                data@,
                WriteDurability::Acknowledged,
                PayloadIntegrity::Verified,
                ticket,
            ),
            final(self).due == match (result, durability) {
                (Ok(ticket), WriteDurability::Flushed) => PersistDue::StreamPrefix {
                    stream: *stream,
                    through: stream_end(ticket),
                },
                _ => PersistDue::Nothing,
            },
            data@.len() == 0 ==> (result matches Err(error) && error is InvalidArgument)
                && final(self).local == old(self).local,
            result is Err ==> final(self).local == (LocalCoordinator {
                observability: final(self).local.observability,
                metadata: MetadataInner {
                    next_append_ticket_id: final(self).local.metadata.next_append_ticket_id,
                    ..old(self).local.metadata
                },
                ..old(self).local
            }),
            final(self).local.append_counted(&old(self).local, data@.len() as int),
    {
        self.append_stream_with_integrity(stream, data, durability, PayloadIntegrity::Verified)
    }

    /// Whether an open stream is durable up to a place.
    pub fn append_stream_reached(&self, stream: &AppendStream, through: u64) -> (result: Result<
        Option<u64>,
        StorageError,
    >)
        ensures
            result is Ok <==> token_open(self.local.metadata.append_streams@, *stream),
            result matches Ok(reached) ==> reached == if self.local.metadata.append_streams@[
                stream.stream_id.0
            ].state.durable_through >= through {
                Some(self.local.metadata.append_streams@[stream.stream_id.0].state.durable_through)
            } else {
                None
            },
            result matches Err(error) ==> error is Conflict,
    {
        if !self.local.metadata.is_token_open(stream) {
            return Err(StorageError::conflict("stale append stream"));
        }
        match self.local.metadata.append_streams.get(stream.stream_id.raw()) {
            Some(live) => if live.state.durable_through >= through {
                Ok(Some(live.state.durable_through))
            } else {
                Ok(None)
            },
            None => Err(StorageError::conflict("stale append stream")),
        }
    }

    /// Takes note that an open stream is durable up to a place.
    #[verifier::rlimit(40)]
    pub fn append_stream_persisted(&mut self, stream: &AppendStream, through: u64) -> (result:
        Result<(), StorageError>)
        requires
            old(self).wf(),
        ensures
            final(self).follows(old(self)),
            final(self).wf(),
            result is Ok <==> token_open(old(self).local.metadata.append_streams@, *stream)
                && through <= old(self).local.metadata.append_streams@[
                stream.stream_id.0
            ].accepted_tail,
            result is Ok ==> {
                let before = old(self).local.metadata.append_streams@[stream.stream_id.0];
                let after = final(self).local.metadata.append_streams@[stream.stream_id.0];
                &&& after.state.durable_through == if before.state.durable_through < through {
                    through
                } else {
                    before.state.durable_through
                }
                &&& after == (LiveAppendStream {
                    state: AppendStreamState {
                        durable_through: after.state.durable_through,
                        ..before.state
                    },
                    ..before
                })
                &&& final(self).local.metadata.append_streams@.remove(stream.stream_id.0) == old(
                    self,
                ).local.metadata.append_streams@.remove(stream.stream_id.0)
                &&& final(self).local.metadata == (MetadataInner {
                    append_streams: final(self).local.metadata.append_streams,
                    ..old(self).local.metadata
                })
            },
            result is Ok ==> *final(self) == (DurableCoordinator {
                local: LocalCoordinator {
                    metadata: final(self).local.metadata,
                    ..old(self).local
                },
                ..*old(self)
            }),
            result matches Err(error) ==> error is Conflict && *final(self) == *old(self),
    {
        if !self.local.metadata.is_token_open(stream) {
            return Err(StorageError::conflict("stale append stream"));
        }
        let reaches = match self.local.metadata.append_streams.get(stream.stream_id.raw()) {
            Some(live) => through <= live.accepted_tail,
            None => false,
        };
        if !reaches {
            return Err(StorageError::conflict("append stream is not that long"));
        }
        let ghost before = self.local;
        let ghost id = stream.stream_id.0;
        if let Some(live) = self.local.metadata.append_streams.remove(stream.stream_id.raw()) {
            let mut live = live;
            if live.state.durable_through < through {
                live.state.durable_through = through;
            }
            self.local.metadata.append_streams.insert(stream.stream_id.raw(), live);
        }
        proof {
            let streams = self.local.metadata.append_streams@;
            assert(streams.remove(id) =~= before.metadata.append_streams@.remove(id));
            assert forall|other: u128| #[trigger] streams.contains_key(other) implies other
                < self.local.metadata.next_append_stream_id && stream_wf(
                self.local.logs(),
                streams[other],
                other,
            ) by {
                assert(before.metadata.append_streams@.contains_key(other));
                assert(stream_wf(before.logs(), before.metadata.append_streams@[other], other));
            }
            assert(self.local.metadata.devices_wf(self.local.block_size()));
            assert(self.local.metadata.files_wf(self.local.block_size()));
        }
        Ok(())
    }

    /// A report of the store's counters, gauges and latest events, with what
    /// was seen of its logs.
    pub fn diagnostics_snapshot(&self, observation: &MaintenanceObservation) -> (snapshot:
        DiagnosticsSnapshot)
        ensures
            snapshot.counters == self.local.observability.counters,
            snapshot.recent_events@ == self.local.observability.events.items@,
            self.local.nodes_reported(snapshot.nodes@),
            snapshot.gauges == self.local.gauges(snapshot.nodes@, Some(observation)),
    {
        self.local.diagnostics_snapshot_with_maintenance(Some(observation))
    }

    /// Takes note of a maintenance plan: it is counted and the event kept, and
    /// nothing else happens.
    pub fn plan_maintenance(&mut self, plan: &MaintenanceTickPlan)
        requires
            old(self).wf(),
        ensures
            final(self).follows(old(self)),
            final(self).wf(),
            *final(self) == (DurableCoordinator {
                local: LocalCoordinator {
                    observability: final(self).local.observability,
                    ..old(self).local
                },
                ..*old(self)
            }),
            final(self).local.observability.counters == plan_counted(
                old(self).local.observability.counters,
                plan.selected_logs as u64,
                plan.skipped_logs as u64,
            ),
            final(self).local.observability.event_kept(
                &old(self).local.observability,
                StorageEventKind::MaintenancePlanned,
                None,
                None,
                None,
                None,
            ),
    {
        self.local.observability.record_plan(plan.selected_logs as u64, plan.skipped_logs as u64);
    }

    /// The logs that one command of a tick compacts: none with payload that
    /// no catalog shows yet.
    pub fn logs_to_compact(&self, logs: &Vec<DurableDataLogRef>) -> (kept: Vec<DurableDataLogRef>)
        ensures
            forall|i: int|
                0 <= i < kept@.len() ==> !self.pending_data_log_append.touches(
                    #[trigger] kept@[i],
                ),
            exists|pending: Seq<DurableDataLogRef>| kept@ == #[trigger] refs_in(logs@, pending, false)
                && forall|log: DurableDataLogRef| #[trigger]
                pending.contains(log) <==> self.pending_data_log_append.touches(log),
    {
        let pending = self.pending_data_log_append.log_refs();
        let kept = compactable_logs(logs, &pending);
        proof {
            assert forall|i: int| 0 <= i < kept@.len() implies !self.pending_data_log_append.touches(
                #[trigger] kept@[i],
            ) by {
                assert(!pending@.contains(kept@[i]));
            }
        }
        kept
    }

    /// Ends a maintenance tick, given what each of its commands did.
    pub fn run_maintenance_tick(
        &mut self,
        plan: &MaintenanceTickPlan,
        compactions: &Vec<DurableCompactionReport>,
    ) -> (result: Result<DurableCompactionReport, StorageError>)
        requires
            old(self).wf(),
            compactions@.len() == plan.compactions@.len(),
        ensures
            final(self).follows(old(self)),
            final(self).wf(),
            result is Ok <==> bytes_copied_by(compactions@) <= u64::MAX && bytes_deleted_by(
                compactions@,
            ) <= u64::MAX,
            result matches Ok(report) ==> {
                &&& reports_together(report, compactions@)
                &&& *final(self) == (DurableCoordinator {
                    local: LocalCoordinator {
                        observability: final(self).local.observability,
                        ..old(self).local
                    },
                    maintenance: MaintenanceProgress { cursor: plan.next_cursor },
                    ..*old(self)
                })
                &&& final(self).local.observability.counters == tick_counted(
                    old(self).local.observability.counters,
                    report.bytes_copied,
                    report.bytes_deleted,
                )
                &&& final(self).local.observability.event_kept(
                    &old(self).local.observability,
                    StorageEventKind::MaintenanceTicked,
                    None,
                    None,
                    None,
                    None,
                )
            },
            result matches Ok(report) ==> (plan.compactions@.len() == 0
                ==> report.deleted_logs@.len() == 0 && report.relocated_logs@.len() == 0
                && report.relocated_segments@.len() == 0 && report.bytes_copied == 0
                && report.bytes_deleted == 0),
            result matches Err(error) ==> error is Conflict && *final(self) == *old(self),
    {
        let report = match combine_reports(compactions) {
            Ok(report) => report,
            Err(error) => return Err(error),
        };
        self.maintenance.ticked(plan);
        self.local.observability.record_tick(report.bytes_copied, report.bytes_deleted);
        Ok(report)
    }
}

/// Where the range of an append ends.
pub open spec fn stream_end(ticket: AppendTicket) -> u64 {
    if ticket.range.end() > u64::MAX {
        u64::MAX
    } else {
        ticket.range.end() as u64
    }
}

fn end_of(ticket: &AppendTicket) -> (end: u64)
    ensures
        end == stream_end(*ticket),
{
    if ticket.range.offset > u64::MAX - ticket.range.len {
        u64::MAX
    } else {
        ticket.range.offset + ticket.range.len
    }
}

} // verus!
