//! Segments that the block journal refers to: when a commit is published, and
//! when the journal outlived the catalog.
use vstd::prelude::*;

use crate::block_commit::receipts_usable;
use crate::coordinator::LocalCoordinator;
use crate::data_log::{
    DataLogState, DurableDataLogRef, PendingDataLogAppend, PendingDataLogManifest,
    SegmentPlacementRow, manifest_of, merged_manifest,
};
use crate::error::StorageError;
use crate::id::{DeviceId, SegmentId, StorageNodeId};
use crate::journal_records::{BlockJournalCommit, BlockJournalEntry};
use crate::metadata_records::SegmentPayloadIntegrity;
use crate::segment_records::{SegmentLifecycleState, SegmentWriteReceipt};
use crate::storage_nodes::{SegmentRecord, keeps_segments, record_wf};
use crate::stored::referenced;

verus! {

/// Whether an entry of a commit refers to a segment that can be marked.
pub open spec fn entry_usable(
    segments: Map<u128, SegmentRecord>,
    entry: BlockJournalEntry,
) -> bool {
    entry matches BlockJournalEntry::Segment { storage_node, segment_id, .. } ==> {
        let record = segments[segment_id.0];
        &&& segments.contains_key(segment_id.0)
        &&& record.storage_node == storage_node
        &&& record.entry.receipt is Some
        &&& record.entry.state == SegmentLifecycleState::DurablePendingMetadata
            || record.entry.state == SegmentLifecycleState::Referenced
    }
}

impl LocalCoordinator {
    /// Marks every segment that a journaled commit refers to as referenced.
    pub fn mark_block_journal_segment_refs_referenced(&mut self, commit: &BlockJournalCommit) -> (result:
        Result<(), StorageError>)
        requires
            old(self).wf(),
        ensures
            final(self).wf(),
            final(self).same_metadata(old(self)),
            keeps_segments(old(self).segments(), final(self).segments()),
            keeps_segments(final(self).segments(), old(self).segments()),
            result is Ok <==> forall|i: int|
                0 <= i < commit.entries@.len() ==> entry_usable(
                    old(self).segments(),
                    #[trigger] commit.entries@[i],
                ),
            result is Ok ==> forall|i: int|
                0 <= i < commit.entries@.len() ==> ((
                #[trigger] commit.entries@[i]) matches BlockJournalEntry::Segment {
                    segment_id,
                    ..
                } ==> final(self).segments().contains_key(segment_id.0)
                    && final(self).segments()[segment_id.0].entry.state
                    == SegmentLifecycleState::Referenced),
            result is Ok ==> final(self).segments().dom() == old(self).segments().dom()
                && forall|id: u128| #[trigger]
                old(self).segments().contains_key(id) ==> final(self).segments()[id] == old(
                    self,
                ).segments()[id] || final(self).segments()[id] == referenced(
                    old(self).segments()[id],
                ),
            final(self).next_write_intent == old(self).next_write_intent,
            final(self).observability == old(self).observability,
            final(self).storage_nodes.node_ids@ == old(self).storage_nodes.node_ids@,
            final(self).storage_nodes.next_segment_id == old(self).storage_nodes.next_segment_id,
            final(self).storage_nodes.next_offset == old(self).storage_nodes.next_offset,
            result is Err ==> final(self).segments() == old(self).segments(),
            result matches Err(error) ==> error is NotFound || error is Conflict,
    {
        let mut receipts: Vec<SegmentWriteReceipt> = Vec::new();
        let mut next: usize = 0;
        while next < commit.entries.len()
            invariant
                next <= commit.entries@.len(),
                *self == *old(self),
                self.wf(),
                forall|i: int|
                    0 <= i < next ==> entry_usable(self.segments(), #[trigger] commit.entries@[i]),
                receipts_usable(self.segments(), receipts@),
                forall|i: int|
                    0 <= i < next ==> ((
                    #[trigger] commit.entries@[i]) matches BlockJournalEntry::Segment {
                        segment_id,
                        ..
                    } ==> exists|k: int|
                        0 <= k < receipts@.len() && (#[trigger] receipts@[k]).segment_id
                            == segment_id),
            decreases commit.entries@.len() - next,
        {
            if let BlockJournalEntry::Segment { storage_node, segment_id, .. } = &commit.entries[next] {
                let record = match self.storage_nodes.segments.get(segment_id.raw()) {
                    Some(record) => record,
                    None => {
                        assert(!entry_usable(self.segments(), commit.entries@[next as int]));
                        return Err(StorageError::not_found("segment", segment_id.raw()));
                    },
                };
                if record.storage_node.raw() != storage_node.raw() {
                    assert(!entry_usable(self.segments(), commit.entries@[next as int]));
                    return Err(StorageError::not_found("segment", segment_id.raw()));
                }
                let receipt = match record.entry.receipt {
                    Some(receipt) => receipt,
                    None => {
                        assert(!entry_usable(self.segments(), commit.entries@[next as int]));
                        return Err(StorageError::conflict("segment is not written yet"));
                    },
                };
                if record.entry.state != SegmentLifecycleState::DurablePendingMetadata
                    && record.entry.state != SegmentLifecycleState::Referenced {
                    assert(!entry_usable(self.segments(), commit.entries@[next as int]));
                    return Err(StorageError::conflict("segment cannot be referenced"));
                }
                let ghost before = receipts@;
                proof {
                    assert(self.segments().contains_key(segment_id.0));
                    assert(record_wf(
                        self.segments()[segment_id.0],
                        segment_id.0,
                        self.block_size(),
                    ));
                }
                receipts.push(receipt);
                proof {
                    assert(receipts@[before.len() as int] == receipt);
                    assert forall|i: int|
                        0 <= i < next implies ((
                        #[trigger] commit.entries@[i]) matches BlockJournalEntry::Segment {
                            segment_id: earlier,
                            ..
                        } ==> exists|k: int|
                            0 <= k < receipts@.len() && (#[trigger] receipts@[k]).segment_id
                                == earlier) by {
                        if let BlockJournalEntry::Segment { segment_id: earlier, .. } =
                            commit.entries@[i] {
                            let k = choose|k: int|
                                0 <= k < before.len() && (#[trigger] before[k]).segment_id
                                    == earlier;
                            assert(receipts@[k] == before[k]);
                        }
                    }
                }
            }
            next = next + 1;
        }
        self.mark_receipts_referenced(&receipts, commit.commit_seq)
    }
}

/// A segment that the journal refers to and the catalog does not know.
#[derive(Clone, Copy, Debug, PartialEq, Eq, Structural)]
pub struct WantedSegment {
    pub storage_node: StorageNodeId,
    pub segment_id: SegmentId,
    pub integrity: SegmentPayloadIntegrity,
    pub device_id: DeviceId,
}

/// A record of a data log that holds a segment.
#[derive(Clone, Copy, Debug, PartialEq, Eq, Structural)]
pub struct FoundSegmentRecord {
    pub placement: SegmentPlacementRow,
    pub physical_record_end: u64,
    /// What the catalog says of the log, if it knows it.
    pub log_state: Option<DataLogState>,
}

/// What a found record tells of its log.
pub open spec fn found_manifest(
    wanted: WantedSegment,
    found: FoundSegmentRecord,
) -> PendingDataLogManifest {
    PendingDataLogManifest {
        storage_node: wanted.storage_node,
        log_id: found.placement.data_log_id,
        state: match found.log_state {
            Some(state) => state,
            None => DataLogState::Active,
        },
        total_bytes: found.physical_record_end,
        needs_dir_sync: false,
    }
}

/// What the found records together tell of a log.
pub open spec fn recovered_manifest(
    wanted: Seq<WantedSegment>,
    found: Seq<Option<FoundSegmentRecord>>,
    log: DurableDataLogRef,
) -> Option<PendingDataLogManifest>
    decreases wanted.len(),
{
    if wanted.len() == 0 {
        None
    } else {
        let manifest = found_manifest(wanted.last(), found[wanted.len() - 1]->0);
        merged_manifest(
            recovered_manifest(wanted.drop_last(), found, log),
            if manifest.log() == log {
                Some(manifest)
            } else {
                None
            },
        )
    }
}

/// Whether a record was found for every wanted segment, with the checksum that
/// the journal has.
pub open spec fn all_found(
    wanted: Seq<WantedSegment>,
    found: Seq<Option<FoundSegmentRecord>>,
) -> bool {
    forall|i: int|
        0 <= i < wanted.len() ==> (found[i] matches Some(record) && record.placement.integrity == (
        #[trigger] wanted[i]).integrity)
}

/// What is to be written to the catalog for segments that only the journal and
/// the data logs know; `found` has the record of each wanted segment at its
/// place.
pub fn recover_block_segment_rows(
    wanted: &Vec<WantedSegment>,
    found: &Vec<Option<FoundSegmentRecord>>,
) -> (result: Result<PendingDataLogAppend, StorageError>)
    requires
        found@.len() == wanted@.len(),
    ensures
        result is Ok <==> all_found(wanted@, found@),
        result matches Ok(append) ==> {
            &&& append.wf()
            &&& append.sealed_logs@.len() == 0
            &&& append.placements@ == found@.map_values(
                |record: Option<FoundSegmentRecord>| record->0.placement,
            )
            &&& forall|log: DurableDataLogRef| #[trigger]
                manifest_of(append.logs@, log) == recovered_manifest(wanted@, found@, log)
        },
        result matches Err(error) ==> error is Corrupt,
{
    let mut append = PendingDataLogAppend::new();
    let mut next: usize = 0;
    let ghost placement_of = |record: Option<FoundSegmentRecord>| record->0.placement;
    proof {
        assert(wanted@.take(0) =~= Seq::empty());
        assert(append.placements@ =~= found@.take(0).map_values(placement_of));
    }
    while next < wanted.len()
        invariant
            next <= wanted@.len(),
            found@.len() == wanted@.len(),
            placement_of == (|record: Option<FoundSegmentRecord>| record->0.placement),
            append.wf(),
            append.sealed_logs@.len() == 0,
            append.placements@ == found@.take(next as int).map_values(placement_of),
            forall|log: DurableDataLogRef| #[trigger]
                manifest_of(append.logs@, log) == recovered_manifest(
                    wanted@.take(next as int),
                    found@,
                    log,
                ),
            forall|i: int|
                0 <= i < next ==> (found@[i] matches Some(record) && record.placement.integrity == (
                #[trigger] wanted@[i]).integrity),
        decreases wanted@.len() - next,
    {
        let segment = wanted[next];
        let record = match found[next] {
            Some(record) => record,
            None => {
                assert(wanted@[next as int] == segment);
                return Err(
                    StorageError::corrupt(
                        "durable journal references a segment with no durable data-log record",
                    ),
                );
            },
        };
        if record.placement.integrity != segment.integrity {
            assert(wanted@[next as int] == segment);
            return Err(
                StorageError::corrupt("recovered segment integrity disagrees with journal entry"),
            );
        }
        let manifest = PendingDataLogManifest {
            storage_node: segment.storage_node,
            log_id: record.placement.data_log_id,
            state: match record.log_state {
                Some(state) => state,
                None => DataLogState::Active,
            },
            total_bytes: record.physical_record_end,
            needs_dir_sync: false,
        };
        let ghost before = append;
        let mut part = PendingDataLogAppend::new();
        part.logs.push(manifest);
        part.placements.push(record.placement);
        let ghost added = part;
        append.merge(part);
        proof {
            let shorter = wanted@.take(next as int);
            let longer = wanted@.take(next + 1);
            assert(longer.drop_last() =~= shorter);
            assert(longer.last() == segment);
            assert(found@.take(next + 1) =~= found@.take(next as int).push(Some(record)));
            assert(append.placements@ =~= found@.take(next + 1).map_values(placement_of));
            assert(added.logs@.drop_last() =~= Seq::empty());
            reveal_with_fuel(manifest_of, 2);
            assert forall|log: DurableDataLogRef| #[trigger]
                manifest_of(append.logs@, log) == recovered_manifest(longer, found@, log) by {
                assert(manifest_of(before.logs@, log) == recovered_manifest(shorter, found@, log));
                assert(manifest_of(added.logs@, log) == if manifest.log() == log {
                    Some(manifest)
                } else {
                    None
                });
            }
            assert(append.sealed_logs@.len() == 0) by {
                if append.sealed_logs@.len() > 0 {
                    let log = append.sealed_logs@[0];
                    assert(append.sealed_logs@.contains(log));
                }
            }
        }
        next = next + 1;
    }
    proof {
        assert(wanted@.take(next as int) =~= wanted@);
        assert(found@.take(next as int) =~= found@);
    }
    Ok(append)
}

} // verus!
