//! Requests on devices: writer leases, single writes, zeroes and discards.
use vstd::prelude::*;

use crate::batch::{PayloadByte, batch_at, batch_counted, batch_places, batch_valid};
use crate::block_api::{
    BlockBatchCommit, BlockBatchWrite, ByteRange, FlushResult, PayloadIntegrity, WriteCommit,
    WriteDurability,
};
use crate::block_commit::byte_after_batch;
use crate::coordinator::{BlockWriterLease, LocalCoordinator, whole_blocks};
use crate::error::StorageError;
use crate::id::{DeviceId, WriterEpoch};
use crate::observability::write_counted;
use crate::segment_records::SegmentLifecycleState;
use crate::stored::{batch_policies, block_put, segments_added};

verus! {

impl LocalCoordinator {
    /// The last writer epoch that a device gave out; zero before the first.
    pub open spec fn writer_epoch_of(&self, device_id: DeviceId) -> u64 {
        if self.block_writer_epochs@.contains_key(device_id.0) {
            self.block_writer_epochs@[device_id.0].0
        } else {
            0
        }
    }

    /// Whether a lease is the last one that its device gave out.
    pub open spec fn lease_valid(&self, lease: BlockWriterLease) -> bool {
        &&& self.metadata.has_device(lease.device_id)
        &&& self.block_writer_epochs@.contains_key(lease.device_id.0)
        &&& self.block_writer_epochs@[lease.device_id.0] == lease.writer_epoch
    }

    /// Gives out the next lease on a device; earlier ones are no longer good.
    pub fn acquire_block_writer(&mut self, device_id: DeviceId) -> (result: Result<
        BlockWriterLease,
        StorageError,
    >)
        requires
            old(self).wf(),
        ensures
            final(self).wf(),
            *final(self) == (LocalCoordinator {
                block_writer_epochs: final(self).block_writer_epochs,
                ..*old(self)
            }),
            result is Ok <==> old(self).metadata.has_device(device_id) && old(
                self,
            ).writer_epoch_of(device_id) < u64::MAX,
            result matches Ok(lease) ==> lease.device_id == device_id && lease.writer_epoch.0
                == old(self).writer_epoch_of(device_id) + 1 && final(self).lease_valid(lease)
                && final(self).block_writer_epochs@ == old(self).block_writer_epochs@.insert(
                device_id.0,
                lease.writer_epoch,
            ),
            result matches Ok(lease) ==> forall|earlier: BlockWriterLease| #[trigger]
                final(self).lease_valid(earlier) && earlier.device_id == device_id ==> earlier
                    == lease,
            result matches Err(error) ==> *final(self) == *old(self) && error == if !old(
                self,
            ).metadata.has_device(device_id) {
                (StorageError::NotFound { kind: "device", id: device_id.0 })
            } else {
                (StorageError::Conflict { message: "block writer epoch overflow" })
            },
    {
        match self.device_info(device_id) {
            Ok(_) => {},
            Err(error) => return Err(error),
        }
        let current: u64 = match self.block_writer_epochs.get(device_id.raw()) {
            Some(epoch) => epoch.0,
            None => 0,
        };
        if current == u64::MAX {
            return Err(StorageError::conflict("block writer epoch overflow"));
        }
        let lease = BlockWriterLease { device_id, writer_epoch: WriterEpoch(current + 1) };
        self.block_writer_epochs.insert(device_id.raw(), lease.writer_epoch);
        Ok(lease)
    }

    /// Checks that a lease is good; giving it up changes nothing.
    pub fn release_block_writer(&self, lease: &BlockWriterLease) -> (result: Result<
        (),
        StorageError,
    >)
        requires
            self.wf(),
        ensures
            result is Ok <==> self.lease_valid(*lease),
            result matches Err(error) ==> error == self.lease_fault(*lease),
    {
        self.validate_block_writer(lease)
    }

    /// Why a lease is refused.
    pub open spec fn lease_fault(&self, lease: BlockWriterLease) -> StorageError {
        if !self.metadata.has_device(lease.device_id) {
            StorageError::NotFound { kind: "device", id: lease.device_id.0 }
        } else {
            StorageError::Conflict { message: "stale block writer lease" }
        }
    }

    pub fn validate_block_writer(&self, lease: &BlockWriterLease) -> (result: Result<
        (),
        StorageError,
    >)
        requires
            self.wf(),
        ensures
            result is Ok <==> self.lease_valid(*lease),
            result matches Err(error) ==> error == self.lease_fault(*lease),
    {
        match self.device_info(lease.device_id) {
            Ok(_) => {},
            Err(error) => return Err(error),
        }
        match self.block_writer_epochs.get(lease.device_id.raw()) {
            Some(epoch) => {
                if epoch.0 == lease.writer_epoch.0 {
                    return Ok(());
                }
            },
            None => {},
        }
        Err(StorageError::conflict("stale block writer lease"))
    }

    /// Makes sure that later leases come after an epoch that was given out before.
    pub fn seed_block_writer_epoch(&mut self, device_id: DeviceId, writer_epoch: WriterEpoch)
        -> (result: Result<(), StorageError>)
        requires
            old(self).wf(),
        ensures
            final(self).wf(),
            *final(self) == (LocalCoordinator {
                block_writer_epochs: final(self).block_writer_epochs,
                ..*old(self)
            }),
            result is Ok <==> old(self).metadata.has_device(device_id),
            result is Ok ==> final(self).writer_epoch_of(device_id) == if writer_epoch.0 > old(
                self,
            ).writer_epoch_of(device_id) {
                writer_epoch.0
            } else {
                old(self).writer_epoch_of(device_id)
            },
            forall|other: DeviceId|
                other != device_id ==> #[trigger] final(self).writer_epoch_of(other) == old(
                    self,
                ).writer_epoch_of(other),
            result matches Err(error) ==> *final(self) == *old(self) && error
                == (StorageError::NotFound { kind: "device", id: device_id.0 }),
    {
        match self.device_info(device_id) {
            Ok(_) => {},
            Err(error) => return Err(error),
        }
        let current: u64 = match self.block_writer_epochs.get(device_id.raw()) {
            Some(epoch) => epoch.0,
            None => 0,
        };
        if writer_epoch.0 > current {
            self.block_writer_epochs.insert(device_id.raw(), writer_epoch);
        }
        Ok(())
    }

    /// Whether a batch's contents are on the device and nothing else changed
    /// there.
    pub open spec fn batch_applied(
        &self,
        before: &LocalCoordinator,
        device_id: DeviceId,
        writes: Seq<BlockBatchWrite>,
    ) -> bool {
        forall|byte: int|
            0 <= byte < before.device_bytes(device_id) ==> #[trigger] self.device_byte(
                device_id,
                byte,
            ) == byte_after_batch(writes, byte, before.device_byte(device_id, byte))
    }

    /// Whether a request on one device left everything else alone.
    pub open spec fn only_device_changed(
        &self,
        before: &LocalCoordinator,
        device_id: DeviceId,
    ) -> bool {
        &&& self.wf()
        &&& self.keeps_store(before)
        &&& self.block_writer_epochs == before.block_writer_epochs
        &&& self.append_run_logs == before.append_run_logs
        &&& self.append_stream_storage_lanes == before.append_stream_storage_lanes
        &&& self.next_extent_id == before.next_extent_id
        &&& self.storage_nodes.node_ids@ == before.storage_nodes.node_ids@
        &&& self.read_profiler == before.read_profiler
        &&& self.native_file_batch_profiler == before.native_file_batch_profiler
        &&& self.metadata.same_outside_devices(&before.metadata)
        &&& self.metadata.device_specs == before.metadata.device_specs
        &&& self.metadata.device_heads@.dom() == before.metadata.device_heads@.dom()
        &&& self.other_devices_kept(before, device_id)
        &&& self.metadata.past_kept(&before.metadata)
        &&& whole_blocks(before.segments(), before.block_size()) ==> whole_blocks(
            self.segments(),
            self.block_size(),
        )
    }

    /// Writes a batch to a device in one commit.
    pub fn commit_block_batch(
        &mut self,
        device_id: DeviceId,
        writes: &[BlockBatchWrite],
        durability: WriteDurability,
    ) -> (result: Result<BlockBatchCommit, StorageError>)
        requires
            old(self).wf(),
        ensures
            final(self).only_device_changed(old(self), device_id),
            final(self).moved_within(old(self), old(self).device_bytes(device_id)),
            result is Ok ==> old(self).metadata.has_device(device_id) && batch_valid(
                writes@,
                old(self).metadata.device_specs@[device_id.0],
            ) && final(self).batch_applied(old(self), device_id, writes@),
            result matches Ok(commit) ==> commit.device_id == device_id && commit.write_count
                == writes@.len() && commit.durability == durability && commit.commit_seq
                == final(self).metadata.device_heads@[device_id.0].latest_commit,
            result matches Ok(commit) ==> commit.commit_seq.0 == old(self).metadata.next_commit_seq
                && commit.commit_seq.0 > old(
                self,
            ).metadata.device_heads@[device_id.0].latest_commit.0 && final(self).metadata.next_commit_seq
                == commit.commit_seq.0 + 1,
            result matches Ok(commit) ==> batch_counted(commit, writes@),
            result is Err ==> final(self).metadata.device_heads == old(self).metadata.device_heads,
            result is Err ==> !old(self).metadata.has_device(device_id) || !batch_valid(
                writes@,
                old(self).metadata.device_specs@[device_id.0],
            ) || LocalCoordinator::batch_too_large(writes@)
                || !old(self).room_for(old(self).device_bytes(device_id)),
            !old(self).metadata.has_device(device_id) ==> (result matches Err(error)
                && error is NotFound),
            old(self).metadata.has_device(device_id) && (!batch_valid(
                writes@,
                old(self).metadata.device_specs@[device_id.0],
            ) || LocalCoordinator::batch_too_large(writes@)) ==> (result matches Err(error)
                && error is InvalidArgument) && *final(self) == *old(self),
            result matches Ok(commit) ==> final(self).metadata.block_commit_recorded(
                &old(self).metadata,
                device_id,
                commit.commit_seq,
            ),
            result is Ok ==> final(self).batch_stored(old(self), device_id, writes@),
            segments_added(
                old(self).segments(),
                final(self).segments(),
                batch_policies(writes@),
                old(self).block_size(),
                if result is Ok {
                    SegmentLifecycleState::Referenced
                } else {
                    SegmentLifecycleState::DurablePendingMetadata
                },
            ),
            result is Ok ==> write_counted(
                old(self).observability.counters,
                final(self).observability.counters,
                true,
            ),
    {
        match self.commit_block_batch_with_delta(device_id, writes, durability) {
            Ok(committed) => Ok(committed.commit),
            Err(error) => Err(error),
        }
    }

    /// Writes a batch under a lease.
    pub fn commit_block_batch_with_writer(
        &mut self,
        lease: &BlockWriterLease,
        writes: &[BlockBatchWrite],
        durability: WriteDurability,
    ) -> (result: Result<BlockBatchCommit, StorageError>)
        requires
            old(self).wf(),
        ensures
            final(self).only_device_changed(old(self), lease.device_id),
            final(self).moved_within(old(self), old(self).device_bytes(lease.device_id)),
            result is Ok ==> old(self).lease_valid(*lease) && batch_valid(
                writes@,
                old(self).metadata.device_specs@[lease.device_id.0],
            ) && final(self).batch_applied(old(self), lease.device_id, writes@),
            result matches Ok(commit) ==> commit.device_id == lease.device_id && commit.write_count
                == writes@.len() && commit.durability == durability && commit.commit_seq
                == final(self).metadata.device_heads@[lease.device_id.0].latest_commit,
            result matches Ok(commit) ==> commit.commit_seq.0 == old(self).metadata.next_commit_seq
                && commit.commit_seq.0 > old(
                self,
            ).metadata.device_heads@[lease.device_id.0].latest_commit.0 && final(self).metadata.next_commit_seq
                == commit.commit_seq.0 + 1,
            result matches Ok(commit) ==> batch_counted(commit, writes@),
            !old(self).lease_valid(*lease) ==> result == Err::<BlockBatchCommit, StorageError>(
                old(self).lease_fault(*lease),
            ) && *final(self) == *old(self),
            result is Err ==> final(self).metadata.device_heads == old(self).metadata.device_heads,
            result is Err ==> !old(self).lease_valid(*lease) || !batch_valid(
                writes@,
                old(self).metadata.device_specs@[lease.device_id.0],
            ) || LocalCoordinator::batch_too_large(writes@)
                || !old(self).room_for(old(self).device_bytes(lease.device_id)),
            result matches Ok(commit) ==> final(self).metadata.block_commit_recorded(
                &old(self).metadata,
                lease.device_id,
                commit.commit_seq,
            ),
            result is Ok ==> final(self).batch_stored(old(self), lease.device_id, writes@),
            segments_added(
                old(self).segments(),
                final(self).segments(),
                batch_policies(writes@),
                old(self).block_size(),
                if result is Ok {
                    SegmentLifecycleState::Referenced
                } else {
                    SegmentLifecycleState::DurablePendingMetadata
                },
            ),
            result is Ok ==> write_counted(
                old(self).observability.counters,
                final(self).observability.counters,
                true,
            ),
    {
        match self.validate_block_writer(lease) {
            Ok(()) => {},
            Err(error) => return Err(error),
        }
        self.commit_block_batch(lease.device_id, writes, durability)
    }

    /// Whether a write's bytes are on the device and nothing else changed there.
    pub open spec fn write_applied(
        &self,
        before: &LocalCoordinator,
        device_id: DeviceId,
        offset: u64,
        data: Seq<u8>,
    ) -> bool {
        forall|byte: int|
            0 <= byte < before.device_bytes(device_id) ==> #[trigger] self.device_byte(
                device_id,
                byte,
            ) == if offset <= byte < offset + data.len() {
                data[byte - offset]
            } else {
                before.device_byte(device_id, byte)
            }
    }

    /// Whether the bytes of a write are in new segments that are referred to and
    /// checked as a policy asks, and every other byte is where it was.
    pub open spec fn write_stored(
        &self,
        before: &LocalCoordinator,
        device_id: DeviceId,
        offset: u64,
        len: int,
        policy: PayloadIntegrity,
    ) -> bool {
        forall|byte: int|
            0 <= byte < before.device_bytes(device_id) ==> block_put(
                before.segments(),
                self.segments(),
                before.device_block(device_id, byte),
                #[trigger] self.device_block(device_id, byte),
                if offset <= byte < offset + len {
                    Some(policy)
                } else {
                    None
                },
                self.block_size(),
            )
    }

    /// Whether a write to a device was answered as the store and the bytes ask:
    /// what came back, what the device holds and what is left alone.
    pub open spec fn write_answered(
        &self,
        before: &LocalCoordinator,
        device_id: DeviceId,
        offset: u64,
        data: Seq<u8>,
        durability: WriteDurability,
        payload_integrity: PayloadIntegrity,
        result: Result<WriteCommit, StorageError>,
    ) -> bool {
        &&& self.only_device_changed(before, device_id)
        &&& self.moved_within(before, before.device_bytes(device_id))
        &&& (result is Ok ==> before.metadata.has_device(device_id) && (ByteRange {
            offset,
            len: data.len() as u64,
        }).fits_device(before.metadata.device_specs@[device_id.0])
            && self.write_applied(before, device_id, offset, data))
        &&& (result matches Ok(commit) ==> commit == (WriteCommit {
            device_id,
            commit_seq: self.metadata.device_heads@[device_id.0].latest_commit,
            range: ByteRange { offset, len: data.len() as u64 },
            durability,
        }))
        &&& (result matches Ok(commit) ==> if data.len() == 0 {
            *self == *before
        } else {
            &&& commit.commit_seq.0 == before.metadata.next_commit_seq
            &&& commit.commit_seq.0 > before.metadata.device_heads@[device_id.0].latest_commit.0
        })
        &&& (data.len() == 0 && before.metadata.has_device(device_id) && (ByteRange { offset, len: 0 }).fits_device(
            before.metadata.device_specs@[device_id.0],
        ) ==> result is Ok)
        &&& (before.metadata.has_device(device_id) && !(ByteRange { offset, len: data.len() as u64 }).fits_device(
            before.metadata.device_specs@[device_id.0],
        ) ==> (result matches Err(error) && error is InvalidArgument) && *self == *before)
        &&& (!before.metadata.has_device(device_id) ==> result == Err::<WriteCommit, StorageError>(
            StorageError::NotFound { kind: "device", id: device_id.0 },
        ) && *self == *before)
        &&& (result is Err ==> self.metadata.device_heads == before.metadata.device_heads)
        &&& (result is Err ==> !before.metadata.has_device(device_id) || !(ByteRange {
            offset,
            len: data.len() as u64,
        }).fits_device(before.metadata.device_specs@[device_id.0]) || data.len()
            > crate::batch::DEFAULT_BLOCK_BATCH_MAX_BYTES || !before.room_for(
            before.device_bytes(device_id),
        ))
        &&& (before.metadata.has_device(device_id) && data.len()
            > crate::batch::DEFAULT_BLOCK_BATCH_MAX_BYTES ==> (result matches Err(error)
            && error is InvalidArgument) && *self == *before)
        &&& (result matches Ok(commit) ==> (data.len() > 0 ==> self.metadata.block_commit_recorded(
            &before.metadata,
            device_id,
            commit.commit_seq,
        )))
        &&& (result is Ok ==> self.write_stored(
            before,
            device_id,
            offset,
            data.len() as int,
            payload_integrity,
        ))
        &&& segments_added(
            before.segments(),
            self.segments(),
            set![payload_integrity],
            before.block_size(),
            if result is Ok {
                SegmentLifecycleState::Referenced
            } else {
                SegmentLifecycleState::DurablePendingMetadata
            },
        )
        &&& (result is Ok && data.len() > 0 ==> write_counted(
            before.observability.counters,
            self.observability.counters,
            true,
        ))
    }

    /// Writes bytes to a device with a checksum.
    pub fn write_device(
        &mut self,
        device_id: DeviceId,
        offset: u64,
        data: &[u8],
        durability: WriteDurability,
    ) -> (result: Result<WriteCommit, StorageError>)
        requires
            old(self).wf(),
        ensures
            final(self).only_device_changed(old(self), device_id),
            final(self).moved_within(old(self), old(self).device_bytes(device_id)),
            result is Ok ==> old(self).metadata.has_device(device_id) && (ByteRange {
                offset,
                len: data@.len() as u64,
            }).fits_device(old(self).metadata.device_specs@[device_id.0])
                && final(self).write_applied(old(self), device_id, offset, data@),
            result matches Ok(commit) ==> commit == (WriteCommit {
                device_id,
                commit_seq: final(self).metadata.device_heads@[device_id.0].latest_commit,
                range: ByteRange { offset, len: data@.len() as u64 },
                durability,
            }),
            result matches Ok(commit) ==> if data@.len() == 0 {
                *final(self) == *old(self)
            } else {
                &&& commit.commit_seq.0 == old(self).metadata.next_commit_seq
                &&& commit.commit_seq.0 > old(self).metadata.device_heads@[device_id.0].latest_commit.0
            },
            data@.len() == 0 && old(self).metadata.has_device(device_id) && (ByteRange { offset, len: 0 }).fits_device(
                old(self).metadata.device_specs@[device_id.0],
            ) ==> result is Ok,
            old(self).metadata.has_device(device_id) && !(ByteRange { offset, len: data@.len() as u64 }).fits_device(
                old(self).metadata.device_specs@[device_id.0],
            ) ==> (result matches Err(error) && error is InvalidArgument) && *final(self) == *old(self),
            !old(self).metadata.has_device(device_id) ==> result == Err::<WriteCommit, StorageError>(
                StorageError::NotFound { kind: "device", id: device_id.0 },
            ) && *final(self) == *old(self),
            result is Err ==> final(self).metadata.device_heads == old(self).metadata.device_heads,
            result is Err ==> !old(self).metadata.has_device(device_id) || !(ByteRange {
                offset,
                len: data@.len() as u64,
            }).fits_device(old(self).metadata.device_specs@[device_id.0]) || data@.len()
                > crate::batch::DEFAULT_BLOCK_BATCH_MAX_BYTES || !old(self).room_for(
                old(self).device_bytes(device_id),
            ),
            old(self).metadata.has_device(device_id) && data@.len()
                > crate::batch::DEFAULT_BLOCK_BATCH_MAX_BYTES ==> (result matches Err(error)
                && error is InvalidArgument) && *final(self) == *old(self),
            result matches Ok(commit) ==> (data@.len() > 0 ==> final(self).metadata.block_commit_recorded(
                &old(self).metadata,
                device_id,
                commit.commit_seq,
            )),
            result is Ok ==> final(self).write_stored(
                old(self),
                device_id,
                offset,
                data@.len() as int,
                PayloadIntegrity::Verified,
            ),
            segments_added(
                old(self).segments(),
                final(self).segments(),
                set![PayloadIntegrity::Verified],
                old(self).block_size(),
                if result is Ok {
                    SegmentLifecycleState::Referenced
                } else {
                    SegmentLifecycleState::DurablePendingMetadata
                },
            ),
            result is Ok && data@.len() > 0 ==> write_counted(
                old(self).observability.counters,
                final(self).observability.counters,
                true,
            ),
            final(self).write_answered(
                old(self),
                device_id,
                offset,
                data@,
                durability,
                PayloadIntegrity::Verified,
                result,
            ),
    {
        self.write_device_with_integrity(
            device_id,
            offset,
            data,
            durability,
            PayloadIntegrity::Verified,
        )
    }

    #[verifier::rlimit(40)]
    pub fn write_device_with_integrity(
        &mut self,
        device_id: DeviceId,
        offset: u64,
        data: &[u8],
        durability: WriteDurability,
        payload_integrity: PayloadIntegrity,
    ) -> (result: Result<WriteCommit, StorageError>)
        requires
            old(self).wf(),
        ensures
            final(self).only_device_changed(old(self), device_id),
            final(self).moved_within(old(self), old(self).device_bytes(device_id)),
            result is Ok ==> old(self).metadata.has_device(device_id) && (ByteRange {
                offset,
                len: data@.len() as u64,
            }).fits_device(old(self).metadata.device_specs@[device_id.0])
                && final(self).write_applied(old(self), device_id, offset, data@),
            result matches Ok(commit) ==> commit == (WriteCommit {
                device_id,
                commit_seq: final(self).metadata.device_heads@[device_id.0].latest_commit,
                range: ByteRange { offset, len: data@.len() as u64 },
                durability,
            }),
            result matches Ok(commit) ==> if data@.len() == 0 {
                *final(self) == *old(self)
            } else {
                &&& commit.commit_seq.0 == old(self).metadata.next_commit_seq
                &&& commit.commit_seq.0 > old(self).metadata.device_heads@[device_id.0].latest_commit.0
            },
            data@.len() == 0 && old(self).metadata.has_device(device_id) && (ByteRange { offset, len: 0 }).fits_device(
                old(self).metadata.device_specs@[device_id.0],
            ) ==> result is Ok,
            old(self).metadata.has_device(device_id) && !(ByteRange { offset, len: data@.len() as u64 }).fits_device(
                old(self).metadata.device_specs@[device_id.0],
            ) ==> (result matches Err(error) && error is InvalidArgument) && *final(self) == *old(self),
            !old(self).metadata.has_device(device_id) ==> result == Err::<WriteCommit, StorageError>(
                StorageError::NotFound { kind: "device", id: device_id.0 },
            ) && *final(self) == *old(self),
            result is Err ==> final(self).metadata.device_heads == old(self).metadata.device_heads,
            result is Err ==> !old(self).metadata.has_device(device_id) || !(ByteRange {
                offset,
                len: data@.len() as u64,
            }).fits_device(old(self).metadata.device_specs@[device_id.0]) || data@.len()
                > crate::batch::DEFAULT_BLOCK_BATCH_MAX_BYTES || !old(self).room_for(
                old(self).device_bytes(device_id),
            ),
            old(self).metadata.has_device(device_id) && data@.len()
                > crate::batch::DEFAULT_BLOCK_BATCH_MAX_BYTES ==> (result matches Err(error)
                && error is InvalidArgument) && *final(self) == *old(self),
            result matches Ok(commit) ==> (data@.len() > 0 ==> final(self).metadata.block_commit_recorded(
                &old(self).metadata,
                device_id,
                commit.commit_seq,
            )),
            result is Ok ==> final(self).write_stored(
                old(self),
                device_id,
                offset,
                data@.len() as int,
                payload_integrity,
            ),
            segments_added(
                old(self).segments(),
                final(self).segments(),
                set![payload_integrity],
                old(self).block_size(),
                if result is Ok {
                    SegmentLifecycleState::Referenced
                } else {
                    SegmentLifecycleState::DurablePendingMetadata
                },
            ),
            result is Ok && data@.len() > 0 ==> write_counted(
                old(self).observability.counters,
                final(self).observability.counters,
                true,
            ),
            final(self).write_answered(
                old(self),
                device_id,
                offset,
                data@,
                durability,
                payload_integrity,
                result,
            ),
    {
        let ghost before = *self;
        let info = match self.device_info(device_id) {
            Ok(info) => info,
            Err(error) => return Err(error),
        };
        let len: u64 = data.len() as u64;
        let range = ByteRange { offset, len };
        match range.validate_for_device(&info.spec) {
            Ok(()) => {},
            Err(error) => return Err(error),
        }
        if len == 0 {
            return Ok(
                WriteCommit { device_id, commit_seq: info.latest_commit, range, durability },
            );
        }
        let bytes = vstd::slice::slice_to_vec(data);
        let mut writes: Vec<BlockBatchWrite> = Vec::new();
        writes.push(BlockBatchWrite { offset, bytes, payload_integrity });
        let ghost batch = writes@;
        proof {
            lemma_single_write_size(batch);
        }
        proof {
            assert(batch.drop_last() =~= Seq::<BlockBatchWrite>::empty());
            assert forall|byte: int| #[trigger] batch_at(batch, byte) == (if offset <= byte < offset
                + data@.len() {
                Some(PayloadByte { value: data@[byte - offset], payload_integrity })
            } else {
                None
            }) by {
                reveal_with_fuel(batch_at, 2);
            }
            assert(batch_policies(batch) =~= set![payload_integrity]) by {
                assert(batch[0].payload_integrity == payload_integrity);
            }
            assert(batch_valid(batch, info.spec)) by {
                assert forall|i: int| 0 <= i < batch.len() implies (
                #[trigger] batch[i]).bytes@.len() > 0 && (ByteRange {
                    offset: batch[i].offset,
                    len: batch[i].bytes@.len() as u64,
                }).fits_device(info.spec) by {}
            }
        }
        match self.commit_block_batch(device_id, writes.as_slice(), durability) {
            Ok(commit) => {
                proof {
                    assert forall|byte: int|
                        0 <= byte < before.device_bytes(device_id) implies #[trigger]
                        self.device_byte(device_id, byte) == (if offset <= byte < offset
                        + data@.len() {
                        data@[byte - offset]
                    } else {
                        before.device_byte(device_id, byte)
                    }) by {
                        assert(batch_at(batch, byte) is Some <==> offset <= byte < offset
                            + data@.len());
                    }
                    assert(self.write_stored(
                        &before,
                        device_id,
                        offset,
                        data@.len() as int,
                        payload_integrity,
                    )) by {
                        assert forall|byte: int|
                            0 <= byte < before.device_bytes(device_id) implies block_put(
                            before.segments(),
                            self.segments(),
                            before.device_block(device_id, byte),
                            #[trigger] self.device_block(device_id, byte),
                            if offset <= byte < offset + data@.len() {
                                Some(payload_integrity)
                            } else {
                                None
                            },
                            self.block_size(),
                        ) by {
                            assert(batch_at(batch, byte) is Some <==> offset <= byte < offset
                                + data@.len());
                        }
                    }
                }
                Ok(
                    WriteCommit {
                        device_id: commit.device_id,
                        commit_seq: commit.commit_seq,
                        range,
                        durability: commit.durability,
                    },
                )
            },
            Err(error) => {
                Err(error)
            },
        }
    }

    /// Writes bytes to a device under a lease.
    pub fn write_device_with_writer(
        &mut self,
        lease: &BlockWriterLease,
        offset: u64,
        data: &[u8],
        durability: WriteDurability,
        payload_integrity: PayloadIntegrity,
    ) -> (result: Result<WriteCommit, StorageError>)
        requires
            old(self).wf(),
        ensures
            final(self).only_device_changed(old(self), lease.device_id),
            final(self).moved_within(old(self), old(self).device_bytes(lease.device_id)),
            result is Ok ==> old(self).lease_valid(*lease) && (ByteRange {
                offset,
                len: data@.len() as u64,
            }).fits_device(old(self).metadata.device_specs@[lease.device_id.0])
                && final(self).write_applied(old(self), lease.device_id, offset, data@),
            result matches Ok(commit) ==> commit == (WriteCommit {
                device_id: lease.device_id,
                commit_seq: final(self).metadata.device_heads@[lease.device_id.0].latest_commit,
                range: ByteRange { offset, len: data@.len() as u64 },
                durability,
            }),
            result matches Ok(commit) ==> if data@.len() == 0 {
                *final(self) == *old(self)
            } else {
                &&& commit.commit_seq.0 == old(self).metadata.next_commit_seq
                &&& commit.commit_seq.0 > old(self).metadata.device_heads@[lease.device_id.0].latest_commit.0
            },
            data@.len() == 0 && old(self).lease_valid(*lease) && (ByteRange { offset, len: 0 }).fits_device(
                old(self).metadata.device_specs@[lease.device_id.0],
            ) ==> result is Ok,
            old(self).lease_valid(*lease) && !(ByteRange { offset, len: data@.len() as u64 }).fits_device(
                old(self).metadata.device_specs@[lease.device_id.0],
            ) ==> (result matches Err(error) && error is InvalidArgument) && *final(self) == *old(self),
            !old(self).lease_valid(*lease) ==> result == Err::<WriteCommit, StorageError>(
                old(self).lease_fault(*lease),
            ) && *final(self) == *old(self),
            result is Err ==> final(self).metadata.device_heads == old(self).metadata.device_heads,
            result is Err ==> !old(self).lease_valid(*lease) || !(ByteRange {
                offset,
                len: data@.len() as u64,
            }).fits_device(old(self).metadata.device_specs@[lease.device_id.0]) || data@.len()
                > crate::batch::DEFAULT_BLOCK_BATCH_MAX_BYTES || !old(self).room_for(
                old(self).device_bytes(lease.device_id),
            ),
            old(self).lease_valid(*lease) && data@.len()
                > crate::batch::DEFAULT_BLOCK_BATCH_MAX_BYTES ==> (result matches Err(error)
                && error is InvalidArgument) && *final(self) == *old(self),
            result matches Ok(commit) ==> (data@.len() > 0 ==> final(self).metadata.block_commit_recorded(
                &old(self).metadata,
                lease.device_id,
                commit.commit_seq,
            )),
            result is Ok ==> final(self).write_stored(
                old(self),
                lease.device_id,
                offset,
                data@.len() as int,
                payload_integrity,
            ),
            segments_added(
                old(self).segments(),
                final(self).segments(),
                set![payload_integrity],
                old(self).block_size(),
                if result is Ok {
                    SegmentLifecycleState::Referenced
                } else {
                    SegmentLifecycleState::DurablePendingMetadata
                },
            ),
            result is Ok && data@.len() > 0 ==> write_counted(
                old(self).observability.counters,
                final(self).observability.counters,
                true,
            ),
            old(self).lease_valid(*lease) ==> final(self).write_answered(
                old(self),
                lease.device_id,
                offset,
                data@,
                durability,
                payload_integrity,
                result,
            ),
    {
        match self.validate_block_writer(lease) {
            Ok(()) => {},
            Err(error) => return Err(error),
        }
        self.write_device_with_integrity(
            lease.device_id,
            offset,
            data,
            durability,
            payload_integrity,
        )
    }

    /// Says how far a device's commits are; the store holds nothing back.
    pub fn flush_device_with_writer(&self, lease: &BlockWriterLease) -> (result: Result<
        FlushResult,
        StorageError,
    >)
        requires
            self.wf(),
        ensures
            result is Ok <==> self.lease_valid(*lease),
            result matches Ok(flushed) ==> flushed == (FlushResult {
                device_id: lease.device_id,
                durable_through: self.metadata.device_heads@[lease.device_id.0].latest_commit,
            }),
            result matches Err(error) ==> error == self.lease_fault(*lease),
    {
        match self.validate_block_writer(lease) {
            Ok(()) => {},
            Err(error) => return Err(error),
        }
        match self.device_info(lease.device_id) {
            Ok(info) => Ok(
                FlushResult { device_id: lease.device_id, durable_through: info.latest_commit },
            ),
            Err(error) => Err(error),
        }
    }
}

/// A batch of one write is as long as the write.
pub proof fn lemma_single_write_size(writes: Seq<BlockBatchWrite>)
    requires
        writes.len() == 1,
    ensures
        batch_places(writes).len() == writes[0].bytes@.len(),
{
    let write = writes[0];
    let (low, high) = (write.offset as int, write.offset + write.bytes@.len());
    assert(writes.drop_last() =~= Seq::<BlockBatchWrite>::empty());
    assert(batch_places(writes) =~= vstd::set_lib::set_int_range(low, high)) by {
        reveal_with_fuel(batch_at, 2);
    }
    vstd::set_lib::lemma_int_range(low, high);
}

} // verus!
