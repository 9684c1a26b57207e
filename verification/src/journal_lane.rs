//! The block journal's lane: durable boundaries wait in it and are written by
//! one run at a time.
use vstd::prelude::*;

use crate::error::StorageError;
use crate::id::{CommitSeq, DeviceId, WriterEpoch};
use crate::idmap::IdMap;
use crate::journal_records::BlockJournalCommit;

verus! {

/// One unit of work for the lane.
pub enum BlockJournalLaneRequest {
    Write(BlockJournalCommit),
    Flush { device_id: DeviceId, writer_epoch: WriterEpoch, durable_through: CommitSeq },
    Lease { device_id: DeviceId, writer_epoch: WriterEpoch },
}

/// What waits in the lane and what has been answered.
pub struct BlockJournalFlushState {
    pub in_flight: bool,
    pub generation: u64,
    pub next_request_id: u64,
    pub pending: IdMap<BlockJournalLaneRequest>,
    pub completed: IdMap<Result<(), StorageError>>,
    /// For each device how many of its writes have not been applied. Writes
    /// are applied in the order of their commits, so a write may go past the
    /// lane only while there are none.
    pub unapplied_writes: IdMap<u64>,
}

impl BlockJournalFlushState {
    pub fn new() -> (state: BlockJournalFlushState)
        ensures
            !state.in_flight,
            state.generation == 0,
            state.next_request_id == 0,
            state.pending@ == Map::<u128, BlockJournalLaneRequest>::empty(),
            state.completed@ == Map::<u128, Result<(), StorageError>>::empty(),
            state.unapplied_writes@ == Map::<u128, u64>::empty(),
    {
        BlockJournalFlushState {
            in_flight: false,
            generation: 0,
            next_request_id: 0,
            pending: IdMap::new(),
            completed: IdMap::new(),
            unapplied_writes: IdMap::new(),
        }
    }

    /// How many writes of a device have not been applied.
    pub open spec fn unapplied(&self, device_id: DeviceId) -> u64 {
        if self.unapplied_writes@.contains_key(device_id.0) {
            self.unapplied_writes@[device_id.0]
        } else {
            0
        }
    }

    fn count_unapplied(&self, device_id: DeviceId) -> (count: u64)
        ensures
            count == self.unapplied(device_id),
    {
        match self.unapplied_writes.get(device_id.0) {
            Some(count) => *count,
            None => 0,
        }
    }

    /// Puts a request into the lane and gives it a number. Numbers start over
    /// after the last one.
    pub fn enqueue(&mut self, request: BlockJournalLaneRequest) -> (request_id: u64)
        requires
            request matches BlockJournalLaneRequest::Write(commit) ==> old(self).unapplied(
                commit.device_id,
            ) < u64::MAX,
        ensures
            request_id == old(self).next_request_id,
            final(self).next_request_id == if request_id == u64::MAX {
                0
            } else {
                (request_id + 1) as u64
            },
            final(self).pending@ == old(self).pending@.insert(request_id as u128, request),
            final(self).completed == old(self).completed,
            final(self).in_flight == old(self).in_flight,
            final(self).generation == old(self).generation,
            forall|device_id: DeviceId| #[trigger]
                final(self).unapplied(device_id) == match request {
                    BlockJournalLaneRequest::Write(commit) if commit.device_id == device_id => (old(
                        self,
                    ).unapplied(device_id) + 1) as u64,
                    _ => old(self).unapplied(device_id),
                },
    {
        match &request {
            BlockJournalLaneRequest::Write(commit) => {
                let count: u64 = self.count_unapplied(commit.device_id) + 1;
                self.unapplied_writes.insert(commit.device_id.0, count);
            },
            _ => {},
        }
        let request_id = self.next_request_id;
        self.next_request_id = if request_id == u64::MAX {
            0
        } else {
            request_id + 1
        };
        self.pending.insert(request_id as u128, request);
        request_id
    }

    /// Whether a write of a device has to go through the lane.
    pub fn has_unapplied_writes(&self, device_id: DeviceId) -> (has: bool)
        ensures
            has == (self.unapplied(device_id) > 0),
    {
        self.count_unapplied(device_id) > 0
    }

    /// Takes note that some writes of a device have been applied.
    pub fn release_unapplied_writes(&mut self, device_id: DeviceId, count: u64)
        ensures
            final(self).unapplied(device_id) == if old(self).unapplied(device_id) <= count {
                0
            } else {
                (old(self).unapplied(device_id) - count) as u64
            },
            forall|other: DeviceId|
                other != device_id ==> #[trigger] final(self).unapplied(other) == old(
                    self,
                ).unapplied(other),
            final(self).pending == old(self).pending,
            final(self).completed == old(self).completed,
            final(self).next_request_id == old(self).next_request_id,
            final(self).in_flight == old(self).in_flight,
            final(self).generation == old(self).generation,
    {
        if !self.unapplied_writes.contains_key(device_id.0) {
            return ;
        }
        let outstanding = self.count_unapplied(device_id);
        if outstanding <= count {
            self.unapplied_writes.remove(device_id.0);
        } else {
            self.unapplied_writes.insert(device_id.0, outstanding - count);
        }
    }
}

} // verus!
