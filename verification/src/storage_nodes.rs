//! The segments that the storage nodes hold.
use vstd::prelude::*;

use crate::block_api::{ByteRange, ReadVerification};
use crate::error::StorageError;
use crate::grants::{
    WriteGrant, grant_allows, make_receipt, owner_of_intent, receipt_for, verify_write_grant,
};
use crate::id::{CommitSeq, SegmentId, StorageNodeId};
use crate::idmap::IdMap;
use crate::integrity::{
    integrity_matches, payload_integrity_of, policy_allows, segment_payload_integrity,
    verify_read_integrity_policy, verify_segment_payload_integrity,
};
use crate::metadata_records::{LeafEntry, SegmentPayloadIntegrity};
use crate::ranges::{blocks_covering, blocks_for_bytes};
use crate::segment_records::{
    CatalogEntry, SegmentLifecycleState, SegmentReservation, SegmentReservationIntent,
    SegmentWriteReceipt,
};
use crate::stored::referenced;

verus! {

/// A segment on a storage node: its catalog entry and its bytes.
#[derive(Debug)]
pub struct SegmentRecord {
    pub storage_node: StorageNodeId,
    pub entry: CatalogEntry,
    pub bytes: Vec<u8>,
}

/// Whether a segment with a receipt holds all blocks that a leaf entry reads.
pub open spec fn entry_backed(segments: Map<u128, SegmentRecord>, entry: LeafEntry) -> bool {
    &&& segments.contains_key(entry.segment_id.0)
    &&& segments[entry.segment_id.0].entry.receipt is Some
    &&& entry.segment_offset.0 + entry.blocks.0
        <= segments[entry.segment_id.0].entry.receipt->0.descriptor.blocks.0
}

/// Whether a segment with a receipt holds all blocks that a leaf entry reads.
pub fn is_entry_backed(segments: &IdMap<SegmentRecord>, entry: LeafEntry) -> (backed: bool)
    ensures
        backed == entry_backed(segments@, entry),
{
    match segments.get(entry.segment_id.raw()) {
        Some(record) => match record.entry.receipt {
            Some(receipt) => match entry.segment_offset.0.checked_add(entry.blocks.0) {
                Some(end) => end <= receipt.descriptor.blocks.0,
                None => false,
            },
            None => false,
        },
        None => false,
    }
}

/// Whether a record's receipt speaks of the record's bytes.
pub open spec fn record_wf(record: SegmentRecord, id: u128, block_size: u64) -> bool {
    record.entry.receipt matches Some(receipt) ==> {
        &&& receipt.segment_id.0 == id
        &&& receipt.descriptor.segment_id.0 == id
        &&& receipt.storage_node == record.storage_node
        &&& receipt.descriptor.bytes == record.bytes@.len()
        &&& receipt.descriptor.blocks.0 == blocks_covering(
            record.bytes@.len() as int,
            block_size as int,
        )
        &&& receipt.descriptor.integrity == receipt.integrity
        &&& integrity_matches(receipt.integrity, record.bytes@)
        &&& crate::grants::receipt_valid(receipt)
    }
}

/// Whether `after` holds every segment of `before` with the same bytes and the
/// same receipt.
pub open spec fn keeps_segments(
    before: Map<u128, SegmentRecord>,
    after: Map<u128, SegmentRecord>,
) -> bool {
    forall|id: u128| #[trigger]
        before.contains_key(id) ==> after.contains_key(id) && after[id].bytes@ == before[id].bytes@
            && after[id].storage_node == before[id].storage_node && after[id].entry.receipt
            == before[id].entry.receipt
}

/// The storage nodes of a store and their segments.
#[derive(Debug)]
pub struct StorageNodeRegistry {
    pub node_ids: Vec<StorageNodeId>,
    pub segments: IdMap<SegmentRecord>,
    pub next_segment_id: u128,
    pub next_placement_index: u64,
    pub next_offset: u64,
}

impl StorageNodeRegistry {
    pub open spec fn wf(&self, block_size: u64) -> bool {
        &&& self.node_ids@.len() > 0
        &&& block_size > 0
        &&& forall|id: u128| #[trigger]
            self.segments@.contains_key(id) ==> id < self.next_segment_id && record_wf(
                self.segments@[id],
                id,
                block_size,
            )
    }

    pub fn new(node_ids: Vec<StorageNodeId>) -> (result: Result<StorageNodeRegistry, StorageError>)
        ensures
            result is Ok <==> node_ids@.len() > 0,
            result matches Ok(registry) ==> registry.node_ids@ == node_ids@ && registry.segments@
                == Map::<u128, SegmentRecord>::empty() && registry.next_segment_id == 1
                && registry.next_placement_index == 0 && registry.next_offset == 0,
            result matches Err(error) ==> error is InvalidArgument,
    {
        if node_ids.len() == 0 {
            return Err(StorageError::invalid_argument("a store needs a storage node"));
        }
        Ok(
            StorageNodeRegistry {
                node_ids,
                segments: IdMap::new(),
                next_segment_id: 1,
                next_placement_index: 0,
                next_offset: 0,
            },
        )
    }

    pub open spec fn has_node(&self, storage_node: StorageNodeId) -> bool {
        self.node_ids@.contains(storage_node)
    }

    pub fn contains_node(&self, storage_node: StorageNodeId) -> (found: bool)
        ensures
            found == self.has_node(storage_node),
    {
        let mut i: usize = 0;
        while i < self.node_ids.len()
            invariant
                i <= self.node_ids@.len(),
                forall|k: int| 0 <= k < i ==> self.node_ids@[k] != storage_node,
            decreases self.node_ids@.len() - i,
        {
            if self.node_ids[i] == storage_node {
                assert(self.node_ids@[i as int] == storage_node);
                return true;
            }
            i = i + 1;
        }
        false
    }

    /// The storage node whose turn it is: every node once, and then the first again.
    pub open spec fn in_turn(&self) -> StorageNodeId {
        self.node_ids@[self.next_placement_index as int % self.node_ids@.len() as int]
    }

    /// The next storage node in turn.
    pub fn choose_storage_node(&mut self) -> (storage_node: StorageNodeId)
        requires
            old(self).node_ids@.len() > 0,
        ensures
            storage_node == old(self).in_turn(),
            storage_node == old(self).node_ids@[old(self).next_placement_index as int % old(
                self,
            ).node_ids@.len() as int],
            final(self).next_placement_index == if old(self).next_placement_index == u64::MAX {
                0
            } else {
                (old(self).next_placement_index + 1) as u64
            },
            final(self).node_ids@ == old(self).node_ids@,
            final(self).segments == old(self).segments,
            final(self).next_segment_id == old(self).next_segment_id,
            final(self).next_offset == old(self).next_offset,
            final(self).has_node(storage_node),
    {
        let count: u64 = self.node_ids.len() as u64;
        let index: usize = (self.next_placement_index % count) as usize;
        let storage_node = self.node_ids[index];
        self.next_placement_index = self.next_placement_index.wrapping_add(1);
        assert(self.node_ids@[index as int] == storage_node);
        storage_node
    }

    pub fn allocate_segment_id(&mut self) -> (result: Result<SegmentId, StorageError>)
        ensures
            result is Ok <==> old(self).next_segment_id < u128::MAX,
            result matches Ok(id) ==> id.0 == old(self).next_segment_id
                && final(self).next_segment_id == id.0 + 1,
            result matches Err(error) ==> error is Conflict && final(self).next_segment_id == old(
                self,
            ).next_segment_id,
            final(self).node_ids@ == old(self).node_ids@,
            final(self).segments == old(self).segments,
            final(self).next_placement_index == old(self).next_placement_index,
            final(self).next_offset == old(self).next_offset,
    {
        if self.next_segment_id == u128::MAX {
            return Err(StorageError::conflict("segment identifiers are used up"));
        }
        let id = SegmentId(self.next_segment_id);
        self.next_segment_id = self.next_segment_id + 1;
        Ok(id)
    }

    /// Whether a storage node takes these bytes under a grant.
    pub open spec fn takes_write(&self, grant: WriteGrant, len: int) -> bool {
        &&& grant_allows(grant, grant.request.storage_node, grant.request.segment_id, len)
        &&& self.has_node(grant.request.storage_node)
        &&& !self.segments@.contains_key(grant.request.segment_id.0)
        &&& grant.request.segment_id.0 < self.next_segment_id
        &&& self.next_offset + len <= u64::MAX
    }

    /// Stores a segment under a grant and answers with the receipt for it.
    pub fn write_segment(&mut self, grant: &WriteGrant, bytes: Vec<u8>, block_size: u64) -> (result:
        Result<SegmentWriteReceipt, StorageError>)
        requires
            old(self).wf(block_size),
        ensures
            final(self).wf(block_size),
            final(self).node_ids@ == old(self).node_ids@,
            final(self).next_segment_id == old(self).next_segment_id,
            final(self).next_placement_index == old(self).next_placement_index,
            keeps_segments(old(self).segments@, final(self).segments@),
            result is Ok <==> old(self).takes_write(*grant, bytes@.len() as int),
            result matches Ok(receipt) ==> receipt == receipt_for(
                *grant,
                bytes@.len() as u64,
                blocks_covering(bytes@.len() as int, block_size as int) as u64,
                payload_integrity_of(grant.request.payload_integrity, bytes@),
                old(self).next_offset,
            ) && crate::grants::receipt_matches(*grant, receipt),
            result matches Ok(receipt) ==> final(self).next_offset == old(self).next_offset
                + bytes@.len() && final(self).segments@.contains_key(receipt.segment_id.0)
                && final(self).segments@[receipt.segment_id.0].bytes@ == bytes@
                && final(self).segments@[receipt.segment_id.0].entry.receipt == Some(receipt)
                && final(self).segments@[receipt.segment_id.0].entry.state
                == SegmentLifecycleState::DurablePendingMetadata && final(self).segments@.remove(
                receipt.segment_id.0,
            ) == old(self).segments@,
            result matches Err(error) ==> (error is Conflict || error is NotFound) && *final(self)
                == *old(self),
    {
        let len: u64 = bytes.len() as u64;
        match verify_write_grant(grant, grant.request.storage_node, grant.request.segment_id, len) {
            Ok(()) => {},
            Err(error) => return Err(error),
        }
        if !self.contains_node(grant.request.storage_node) {
            return Err(StorageError::not_found("storage_node", grant.request.storage_node.raw()));
        }
        if self.segments.contains_key(grant.request.segment_id.raw())
            || grant.request.segment_id.raw() >= self.next_segment_id {
            return Err(StorageError::conflict("segment cannot be written again"));
        }
        let offset: u64 = self.next_offset;
        let next_offset: u64 = match offset.checked_add(len) {
            Some(next_offset) => next_offset,
            None => return Err(StorageError::conflict("segment store is full")),
        };
        let blocks: u64 = match blocks_for_bytes(len, block_size) {
            Ok(blocks) => blocks,
            Err(error) => {
                assert(false);
                return Err(error);
            },
        };
        let integrity = segment_payload_integrity(
            grant.request.payload_integrity,
            bytes.as_slice(),
        );
        let receipt = make_receipt(grant, len, blocks, integrity, offset);
        let entry = CatalogEntry {
            intent: SegmentReservationIntent {
                write_intent: grant.request.write_intent,
                owner: owner_of_intent(grant.request.intent),
                bytes: grant.request.max_bytes,
            },
            reservation: SegmentReservation {
                segment_id: grant.request.segment_id,
                bytes: grant.request.max_bytes,
            },
            state: SegmentLifecycleState::DurablePendingMetadata,
            receipt: Some(receipt),
        };
        let ghost before = self.segments@;
        let ghost id = grant.request.segment_id.0;
        self.segments.insert(
            grant.request.segment_id.raw(),
            SegmentRecord { storage_node: grant.request.storage_node, entry, bytes },
        );
        self.next_offset = next_offset;
        assert(self.segments@.remove(id) =~= before);
        Ok(receipt)
    }

    /// The receipt that is on record for a segment.
    pub fn receipt_for_segment(&self, segment_id: SegmentId) -> (result: Result<
        SegmentWriteReceipt,
        StorageError,
    >)
        ensures
            result is Ok <==> self.segments@.contains_key(segment_id.0)
                && self.segments@[segment_id.0].entry.receipt is Some,
            result matches Ok(receipt) ==> self.segments@[segment_id.0].entry.receipt == Some(
                receipt,
            ),
            result matches Err(error) ==> error is NotFound,
    {
        match self.segments.get(segment_id.raw()) {
            Some(record) => match record.entry.receipt {
                Some(receipt) => Ok(receipt),
                None => Err(StorageError::not_found("segment_receipt", segment_id.raw())),
            },
            None => Err(StorageError::not_found("segment", segment_id.raw())),
        }
    }

    fn set_state(&mut self, segment_id: SegmentId, state: SegmentLifecycleState, block_size: u64)
        requires
            old(self).wf(block_size),
            old(self).segments@.contains_key(segment_id.0),
        ensures
            final(self).wf(block_size),
            final(self).node_ids@ == old(self).node_ids@,
            final(self).next_segment_id == old(self).next_segment_id,
            final(self).next_placement_index == old(self).next_placement_index,
            final(self).next_offset == old(self).next_offset,
            keeps_segments(old(self).segments@, final(self).segments@),
            keeps_segments(final(self).segments@, old(self).segments@),
            final(self).segments@[segment_id.0] == (SegmentRecord {
                entry: CatalogEntry {
                    state,
                    ..old(self).segments@[segment_id.0].entry
                },
                ..old(self).segments@[segment_id.0]
            }),
            final(self).segments@.dom() == old(self).segments@.dom(),
            forall|id: u128| #[trigger]
                old(self).segments@.contains_key(id) && id != segment_id.0
                    ==> final(self).segments@[id] == old(self).segments@[id],
    {
        match self.segments.remove(segment_id.raw()) {
            Some(record) => {
                let mut record = record;
                record.entry.state = state;
                self.segments.insert(segment_id.raw(), record);
                assert(self.segments@.dom() =~= old(self).segments@.dom());
            },
            None => {},
        }
    }

    /// Records that committed metadata refers to a segment.
    pub fn mark_segment_referenced(
        &mut self,
        receipt: &SegmentWriteReceipt,
        commit_seq: CommitSeq,
        block_size: u64,
    ) -> (result: Result<(), StorageError>)
        requires
            old(self).wf(block_size),
        ensures
            final(self).wf(block_size),
            final(self).node_ids@ == old(self).node_ids@,
            final(self).next_segment_id == old(self).next_segment_id,
            final(self).next_placement_index == old(self).next_placement_index,
            final(self).next_offset == old(self).next_offset,
            keeps_segments(old(self).segments@, final(self).segments@),
            keeps_segments(final(self).segments@, old(self).segments@),
            result is Ok <==> old(self).segments@.contains_key(receipt.segment_id.0) && old(
                self,
            ).segments@[receipt.segment_id.0].entry.receipt == Some(*receipt) && (old(
                self,
            ).segments@[receipt.segment_id.0].entry.state
                == SegmentLifecycleState::DurablePendingMetadata || old(
                self,
            ).segments@[receipt.segment_id.0].entry.state == SegmentLifecycleState::Referenced),
            result is Ok ==> final(self).segments@[receipt.segment_id.0] == (SegmentRecord {
                entry: CatalogEntry {
                    state: SegmentLifecycleState::Referenced,
                    ..old(self).segments@[receipt.segment_id.0].entry
                },
                ..old(self).segments@[receipt.segment_id.0]
            }),
            final(self).segments@.dom() == old(self).segments@.dom(),
            forall|id: u128| #[trigger]
                old(self).segments@.contains_key(id) && id != receipt.segment_id.0
                    ==> final(self).segments@[id] == old(self).segments@[id],
            result matches Err(error) ==> *final(self) == *old(self) && (error is NotFound
                || error is Conflict),
    {
        let state = match self.segments.get(receipt.segment_id.raw()) {
            Some(record) => {
                match record.entry.receipt {
                    Some(stored) => {
                        if stored != *receipt {
                            return Err(
                                StorageError::conflict("segment has a different receipt"),
                            );
                        }
                    },
                    None => return Err(
                        StorageError::not_found("segment_receipt", receipt.segment_id.raw()),
                    ),
                }
                record.entry.state
            },
            None => return Err(StorageError::not_found("segment", receipt.segment_id.raw())),
        };
        if state == SegmentLifecycleState::DurablePendingMetadata || state
            == SegmentLifecycleState::Referenced {
            self.set_state(receipt.segment_id, SegmentLifecycleState::Referenced, block_size);
            Ok(())
        } else {
            Err(StorageError::conflict("segment cannot be referenced any more"))
        }
    }

    /// Records that no metadata refers to a segment any more.
    pub fn release_segment(&mut self, segment_id: SegmentId, block_size: u64) -> (result: Result<
        (),
        StorageError,
    >)
        requires
            old(self).wf(block_size),
        ensures
            final(self).wf(block_size),
            final(self).node_ids@ == old(self).node_ids@,
            final(self).next_segment_id == old(self).next_segment_id,
            final(self).next_placement_index == old(self).next_placement_index,
            final(self).next_offset == old(self).next_offset,
            keeps_segments(old(self).segments@, final(self).segments@),
            keeps_segments(final(self).segments@, old(self).segments@),
            result is Ok <==> old(self).segments@.contains_key(segment_id.0),
            result is Ok ==> final(self).segments@[segment_id.0] == (SegmentRecord {
                entry: CatalogEntry {
                    state: SegmentLifecycleState::Released,
                    ..old(self).segments@[segment_id.0].entry
                },
                ..old(self).segments@[segment_id.0]
            }),
            final(self).segments@.dom() == old(self).segments@.dom(),
            forall|id: u128| #[trigger]
                old(self).segments@.contains_key(id) && id != segment_id.0
                    ==> final(self).segments@[id] == old(self).segments@[id],
            result matches Err(error) ==> *final(self) == *old(self) && error is NotFound,
    {
        if !self.segments.contains_key(segment_id.raw()) {
            return Err(StorageError::not_found("segment", segment_id.raw()));
        }
        self.set_state(segment_id, SegmentLifecycleState::Released, block_size);
        Ok(())
    }

    /// Whether a node can answer a read of a segment.
    pub open spec fn answers_read(
        &self,
        storage_node: StorageNodeId,
        segment_id: SegmentId,
        range: ByteRange,
        integrity: SegmentPayloadIntegrity,
        verification: ReadVerification,
    ) -> bool {
        &&& policy_allows(integrity, verification)
        &&& self.segments@.contains_key(segment_id.0)
        &&& self.segments@[segment_id.0].storage_node == storage_node
        &&& range.end() <= self.segments@[segment_id.0].bytes@.len()
        &&& verification != ReadVerification::Skip ==> integrity_matches(
            integrity,
            self.segments@[segment_id.0].bytes@,
        )
    }

    /// Fills `buf` with a range of a segment. The checksum is of the whole
    /// segment and is checked unless the read skips it.
    pub fn read_segment_from_node(
        &self,
        storage_node: StorageNodeId,
        segment_id: SegmentId,
        range: ByteRange,
        integrity: SegmentPayloadIntegrity,
        verification: ReadVerification,
        buf: &mut [u8],
    ) -> (result: Result<(), StorageError>)
        ensures
            final(buf)@.len() == old(buf)@.len(),
            result is Ok <==> range.len == old(buf)@.len() && self.answers_read(
                storage_node,
                segment_id,
                range,
                integrity,
                verification,
            ),
            result is Ok ==> final(buf)@ == self.segments@[segment_id.0].bytes@.subrange(
                range.offset as int,
                range.end(),
            ),
            result matches Err(error) ==> error is Corrupt || error is NotFound,
    {
        match verify_read_integrity_policy(integrity, verification) {
            Ok(()) => {},
            Err(error) => return Err(error),
        }
        let record = match self.segments.get(segment_id.raw()) {
            Some(record) => record,
            None => return Err(StorageError::not_found("segment", segment_id.raw())),
        };
        if record.storage_node != storage_node {
            return Err(StorageError::not_found("segment", segment_id.raw()));
        }
        let total: u64 = record.bytes.len() as u64;
        let buf_len: usize = buf.len();
        if range.len != buf_len as u64 {
            return Err(StorageError::corrupt("segment read length disagrees with output buffer"));
        }
        let end: u64 = match range.offset.checked_add(range.len) {
            Some(end) => end,
            None => return Err(StorageError::corrupt("segment read range overflows")),
        };
        if end > total {
            return Err(StorageError::corrupt("segment read range exceeds segment"));
        }
        if verification != ReadVerification::Skip {
            match verify_segment_payload_integrity(integrity, record.bytes.as_slice()) {
                Ok(()) => {},
                Err(error) => return Err(error),
            }
        }
        let mut i: usize = 0;
        while i < buf_len
            invariant
                i <= buf_len,
                buf@.len() == buf_len,
                old(buf)@.len() == buf_len,
                range.len == buf_len,
                end == range.end(),
                end <= record.bytes@.len(),
                total == record.bytes@.len(),
                record.bytes@.len() <= usize::MAX,
                forall|k: int| 0 <= k < i ==> buf@[k] == record.bytes@[range.offset + k],
            decreases buf_len - i,
        {
            buf[i] = record.bytes[range.offset as usize + i];
            i = i + 1;
        }
        assert(buf@ =~= record.bytes@.subrange(range.offset as int, range.end()));
        Ok(())
    }
}

/// Nodes take turns: of as many choices in a row as there are nodes, every node
/// gets one, and no node gets two.
pub proof fn law_every_node_has_its_turn(turns: Seq<StorageNodeRegistry>)
    requires
        turns.len() > 0,
        turns[0].node_ids@.len() > 0,
        turns.len() == turns[0].node_ids@.len(),
        turns[0].next_placement_index + turns.len() <= u64::MAX,
        forall|k: int|
            0 <= k < turns.len() ==> (#[trigger] turns[k]).node_ids@ == turns[0].node_ids@
                && turns[k].next_placement_index == turns[0].next_placement_index + k,
    ensures
        forall|node: StorageNodeId| #[trigger]
            turns[0].has_node(node) ==> exists|k: int|
                0 <= k < turns.len() && (#[trigger] turns[k]).in_turn() == node,
        turns[0].node_ids@.no_duplicates() ==> forall|j: int, k: int|
            0 <= j < k < turns.len() ==> (#[trigger] turns[j]).in_turn() != (
            #[trigger] turns[k]).in_turn(),
{
    let ids = turns[0].node_ids@;
    let count = ids.len() as int;
    let first = turns[0].next_placement_index as int;
    assert forall|node: StorageNodeId| #[trigger] turns[0].has_node(node) implies exists|k: int|
        0 <= k < turns.len() && (#[trigger] turns[k]).in_turn() == node by {
        let at = choose|at: int| 0 <= at < ids.len() && ids[at] == node;
        let k = (at - first) % count;
        vstd::arithmetic::div_mod::lemma_add_mod_noop(first, at - first, count);
        vstd::arithmetic::div_mod::lemma_mod_twice(first, count);
        vstd::arithmetic::div_mod::lemma_add_mod_noop(first, k, count);
        vstd::arithmetic::div_mod::lemma_mod_twice(at - first, count);
        vstd::arithmetic::div_mod::lemma_small_mod(at as nat, count as nat);
        assert((first + k) % count == at);
        assert(turns[k].in_turn() == node);
    }
    if ids.no_duplicates() {
        assert forall|j: int, k: int| 0 <= j < k < turns.len() implies (
        #[trigger] turns[j]).in_turn() != (#[trigger] turns[k]).in_turn() by {
            let a = (first + j) % count;
            let b = (first + k) % count;
            if a == b {
                vstd::arithmetic::div_mod::lemma_mod_equivalence(first + j, first + k, count);
                vstd::arithmetic::div_mod::lemma_mod_equivalence(first + k, first + j, count);
                assert((k - j) % count == 0);
                vstd::arithmetic::div_mod::lemma_small_mod((k - j) as nat, count as nat);
            }
            assert(ids[a] != ids[b]);
        }
    }
}

/// Backing only depends on receipts.
pub proof fn lemma_backed_kept(
    before: Map<u128, SegmentRecord>,
    after: Map<u128, SegmentRecord>,
    entry: LeafEntry,
)
    requires
        keeps_segments(before, after),
        entry_backed(before, entry),
    ensures
        entry_backed(after, entry),
{
}

} // verus!
