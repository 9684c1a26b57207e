//! Bringing a store up to its block journal: what the journal's steps make of
//! the writer epochs, the commit numbers, the heads and the segments.
use vstd::prelude::*;

use crate::coordinator::LocalCoordinator;
use crate::error::StorageError;
use crate::id::{CommitSeq, DeviceId, WriterEpoch};
use crate::idmap::IdMap;
use crate::journal_overlay::{BlockJournalOverlay, later_commit, later_epoch};
use crate::journal_records::{BlockJournalCommit, BlockJournalEntry};
use crate::journal_replay::{
    JournalStep, counts, flushed_through, is_flushed, is_missing, law_just_flushed_writes_count,
    load_block_journal_overlay, overlay_of, top_epoch, top_flush, writes_ascend, writes_fit,
    writes_on_blocks,
};
use crate::journal_segments::entry_usable;
use crate::metadata::{MetadataInner, head_wf, heads_wf, history_wf};
use crate::metadata_records::DeviceHead;
use crate::segment_records::SegmentLifecycleState;
use crate::storage_nodes::SegmentRecord;
use crate::stored::referenced;

verus! {

/// The first commit number behind a step and everything before it.
pub open spec fn next_after(steps: Seq<JournalStep>, upto: int, next: u64) -> u64
    decreases upto,
{
    if upto <= 0 {
        next
    } else {
        let before = next_after(steps, upto - 1, next);
        match step_seq(steps[upto - 1]) {
            Some(seq) => if seq.0 >= before {
                (seq.0 + 1) as u64
            } else {
                before
            },
            None => before,
        }
    }
}

/// The commit number that a step names, if it names one.
pub open spec fn step_seq(step: JournalStep) -> Option<CommitSeq> {
    match step {
        JournalStep::Lease { .. } => None,
        JournalStep::Write(commit) => Some(commit.commit_seq),
        JournalStep::Flush { durable_through, .. } => Some(durable_through),
    }
}

/// The last commit of a device once the steps that count are on it.
pub open spec fn head_after(
    steps: Seq<JournalStep>,
    upto: int,
    materialized: Map<u128, CommitSeq>,
    device_id: DeviceId,
    latest: CommitSeq,
) -> CommitSeq
    decreases upto,
{
    if upto <= 0 {
        latest
    } else {
        let before = head_after(steps, upto - 1, materialized, device_id, latest);
        match steps[upto - 1] {
            JournalStep::Write(commit) if commit.device_id == device_id && counts(
                steps,
                materialized,
                commit,
            ) => later_commit(before, commit.commit_seq),
            _ => before,
        }
    }
}

/// Whether every segment that a write needs is stored and may be referred to.
pub open spec fn commit_usable(
    segments: Map<u128, SegmentRecord>,
    commit: BlockJournalCommit,
) -> bool {
    forall|i: int|
        0 <= i < commit.entries@.len() ==> entry_usable(segments, #[trigger] commit.entries@[i])
}

/// Whether every segment that a write needs is referred to.
pub open spec fn commit_referenced(
    segments: Map<u128, SegmentRecord>,
    commit: BlockJournalCommit,
) -> bool {
    forall|i: int|
        0 <= i < commit.entries@.len() ==> ((
        #[trigger] commit.entries@[i]) matches BlockJournalEntry::Segment { segment_id, .. }
            ==> segments.contains_key(segment_id.0) && segments[segment_id.0].entry.state
            == SegmentLifecycleState::Referenced)
}

/// Whether segments are as they were, but that some are now referred to.
pub open spec fn only_referred(
    before: Map<u128, SegmentRecord>,
    after: Map<u128, SegmentRecord>,
) -> bool {
    &&& after.dom() == before.dom()
    &&& forall|id: u128| #[trigger]
        before.contains_key(id) ==> after[id] == before[id] || after[id] == referenced(before[id])
}

/// Whether a store can take a step.
pub open spec fn step_fits(
    store: LocalCoordinator,
    steps: Seq<JournalStep>,
    materialized: Map<u128, CommitSeq>,
    step: JournalStep,
) -> bool {
    &&& store.metadata.has_device(step.device())
    &&& step_seq(step) matches Some(seq) ==> seq.0 < u64::MAX
    &&& step matches JournalStep::Write(commit) ==> (counts(steps, materialized, commit)
        ==> commit_usable(store.segments(), commit))
}

/// Whether a store can be brought up to a journal.
pub open spec fn replayable(
    store: LocalCoordinator,
    steps: Seq<JournalStep>,
    materialized: Map<u128, CommitSeq>,
) -> bool {
    &&& writes_ascend(steps)
    &&& writes_fit(steps, store.metadata.device_specs@)
    &&& writes_on_blocks(steps, store.metadata.device_specs@, materialized)
    &&& forall|i: int|
        0 <= i < steps.len() ==> step_fits(store, steps, materialized, #[trigger] steps[i])
}

/// Whether a store has taken the first steps of a journal.
pub open spec fn replayed(
    before: LocalCoordinator,
    after: LocalCoordinator,
    steps: Seq<JournalStep>,
    upto: int,
    materialized: Map<u128, CommitSeq>,
) -> bool {
    &&& after == (LocalCoordinator {
        metadata: MetadataInner {
            device_heads: after.metadata.device_heads,
            next_commit_seq: after.metadata.next_commit_seq,
            ..before.metadata
        },
        storage_nodes: after.storage_nodes,
        block_writer_epochs: after.block_writer_epochs,
        ..before
    })
    &&& after.metadata.next_commit_seq == next_after(steps, upto, before.metadata.next_commit_seq)
    &&& after.metadata.device_heads@.dom() == before.metadata.device_heads@.dom()
    &&& forall|device_id: DeviceId|
        #![trigger after.metadata.device_heads@[device_id.0]]
        before.metadata.has_device(device_id) ==> after.metadata.device_heads@[device_id.0] == (
        DeviceHead {
            latest_commit: head_after(
                steps,
                upto,
                materialized,
                device_id,
                before.metadata.device_heads@[device_id.0].latest_commit,
            ),
            ..before.metadata.device_heads@[device_id.0]
        })
    &&& forall|device_id: DeviceId| #[trigger]
        after.writer_epoch_of(device_id) == later_epoch(
            WriterEpoch(before.writer_epoch_of(device_id)),
            top_epoch(steps.take(upto), device_id),
        ).0
    &&& only_referred(before.segments(), after.segments())
    &&& after.storage_nodes.node_ids@ == before.storage_nodes.node_ids@
    &&& after.storage_nodes.next_segment_id == before.storage_nodes.next_segment_id
    &&& after.storage_nodes.next_offset == before.storage_nodes.next_offset
    &&& forall|i: int|
        0 <= i < upto ==> ((#[trigger] steps[i]) matches JournalStep::Write(commit) ==> (counts(
            steps,
            materialized,
            commit,
        ) ==> commit_referenced(after.segments(), commit)))
}

impl MetadataInner {
    /// Takes note that a commit number is in use.
    pub fn observe_allocated_commit_seq(&mut self, commit_seq: CommitSeq) -> (result: Result<
        (),
        StorageError,
    >)
        ensures
            result is Ok <==> commit_seq.0 < u64::MAX,
            *final(self) == (MetadataInner {
                next_commit_seq: final(self).next_commit_seq,
                ..*old(self)
            }),
            result is Ok ==> final(self).next_commit_seq == if commit_seq.0 >= old(
                self,
            ).next_commit_seq {
                commit_seq.0 + 1
            } else {
                old(self).next_commit_seq as int
            },
            result matches Err(error) ==> *final(self) == *old(self) && error is Conflict,
    {
        if commit_seq.0 == u64::MAX {
            return Err(StorageError::conflict("commit sequence overflow"));
        }
        if commit_seq.0 >= self.next_commit_seq {
            self.next_commit_seq = commit_seq.0 + 1;
        }
        Ok(())
    }

    /// Moves a device's head on to a commit that only the journal has.
    pub fn replay_block_journal_commit(&mut self, device_id: DeviceId, commit_seq: CommitSeq)
        -> (result: Result<(), StorageError>)
        ensures
            result is Ok <==> old(self).has_device(device_id),
            *final(self) == (MetadataInner {
                device_heads: final(self).device_heads,
                ..*old(self)
            }),
            result is Ok ==> final(self).device_heads@ == old(self).device_heads@.insert(
                device_id.0,
                DeviceHead {
                    latest_commit: later_commit(
                        old(self).device_heads@[device_id.0].latest_commit,
                        commit_seq,
                    ),
                    ..old(self).device_heads@[device_id.0]
                },
            ),
            result matches Err(error) ==> *final(self) == *old(self) && error is NotFound,
    {
        if !self.device_heads.contains_key(device_id.raw()) {
            return Err(StorageError::not_found("device", device_id.raw()));
        }
        match self.device_heads.remove(device_id.raw()) {
            Some(head) => {
                let mut head = head;
                if head.latest_commit.0 < commit_seq.0 {
                    head.latest_commit = commit_seq;
                }
                self.device_heads.insert(device_id.raw(), head);
                assert(self.device_heads@ =~= old(self).device_heads@.insert(device_id.0, head));
                Ok(())
            },
            None => Err(StorageError::not_found("device", device_id.raw())),
        }
    }
}

/// Whether each of a write's entries can be marked.
fn is_commit_usable(segments: &IdMap<SegmentRecord>, commit: &BlockJournalCommit) -> (usable: bool)
    ensures
        usable == commit_usable(segments@, *commit),
{
    let mut next: usize = 0;
    while next < commit.entries.len()
        invariant
            next <= commit.entries@.len(),
            forall|i: int|
                0 <= i < next ==> entry_usable(segments@, #[trigger] commit.entries@[i]),
        decreases commit.entries@.len() - next,
    {
        if let BlockJournalEntry::Segment { storage_node, segment_id, .. } = &commit.entries[next] {
            let usable = match segments.get(segment_id.raw()) {
                Some(record) => record.storage_node.raw() == storage_node.raw()
                    && record.entry.receipt.is_some() && (record.entry.state
                    == SegmentLifecycleState::DurablePendingMetadata || record.entry.state
                    == SegmentLifecycleState::Referenced),
                None => false,
            };
            if !usable {
                assert(!entry_usable(segments@, commit.entries@[next as int]));
                return false;
            }
        }
        next = next + 1;
    }
    true
}

/// Whether a write counts after a restart.
fn does_count(
    commit: &BlockJournalCommit,
    flushed: &IdMap<CommitSeq>,
    materialized: &IdMap<CommitSeq>,
    steps: Ghost<Seq<JournalStep>>,
) -> (does: bool)
    requires
        forall|device_id: DeviceId|
            #![trigger top_flush(steps@, device_id)]
            top_flush(steps@, device_id) == if flushed@.contains_key(device_id.0) {
                Some(flushed@[device_id.0])
            } else {
                None
            },
    ensures
        does == counts(steps@, materialized@, *commit),
{
    let fresh = match materialized.get(commit.device_id.0) {
        Some(high) => commit.commit_seq.0 > high.0,
        None => true,
    };
    let durable = match flushed.get(commit.device_id.0) {
        Some(high) => commit.commit_seq.0 <= high.0,
        None => false,
    };
    assert(top_flush(steps@, commit.device_id) == top_flush(steps@, commit.device_id));
    fresh && durable
}

/// Holds a journal to what the store has.
fn check_steps(
    local: &LocalCoordinator,
    steps: &Vec<JournalStep>,
    flushed: &IdMap<CommitSeq>,
    materialized: &IdMap<CommitSeq>,
) -> (result: Result<(), StorageError>)
    requires
        forall|device_id: DeviceId|
            #![trigger top_flush(steps@, device_id)]
            top_flush(steps@, device_id) == if flushed@.contains_key(device_id.0) {
                Some(flushed@[device_id.0])
            } else {
                None
            },
    ensures
        result is Ok <==> forall|i: int|
            0 <= i < steps@.len() ==> step_fits(
                *local,
                steps@,
                materialized@,
                #[trigger] steps@[i],
            ),
        result matches Err(error) ==> error is NotFound || error is Conflict,
{
    let mut next: usize = 0;
    while next < steps.len()
        invariant
            next <= steps@.len(),
            forall|device_id: DeviceId|
                #![trigger top_flush(steps@, device_id)]
                top_flush(steps@, device_id) == if flushed@.contains_key(device_id.0) {
                    Some(flushed@[device_id.0])
                } else {
                    None
                },
            forall|i: int|
                0 <= i < next ==> step_fits(*local, steps@, materialized@, #[trigger] steps@[i]),
        decreases steps@.len() - next,
    {
        let (device_id, seq): (DeviceId, Option<CommitSeq>) = match &steps[next] {
            JournalStep::Lease { device_id, .. } => (*device_id, None),
            JournalStep::Write(commit) => (commit.device_id, Some(commit.commit_seq)),
            JournalStep::Flush { device_id, durable_through, .. } => (
                *device_id,
                Some(*durable_through),
            ),
        };
        if !local.metadata.device_heads.contains_key(device_id.raw()) {
            assert(!step_fits(*local, steps@, materialized@, steps@[next as int]));
            return Err(StorageError::not_found("device", device_id.raw()));
        }
        match seq {
            Some(seq) => {
                if seq.0 == u64::MAX {
                    assert(!step_fits(*local, steps@, materialized@, steps@[next as int]));
                    return Err(StorageError::conflict("commit sequence overflow"));
                }
            },
            None => {},
        }
        if let JournalStep::Write(commit) = &steps[next] {
            if does_count(commit, flushed, materialized, Ghost(steps@)) && !is_commit_usable(
                &local.storage_nodes.segments,
                commit,
            ) {
                assert(!step_fits(*local, steps@, materialized@, steps@[next as int]));
                return Err(StorageError::conflict("journaled segment cannot be referenced"));
            }
        }
        next = next + 1;
    }
    Ok(())
}

/// Brings a store up to its journal and says what the journal lays over its
/// devices: writer epochs and commit numbers that the journal names are taken, and
/// the writes that count are the last commits of their devices, their segments
/// referred to.
#[verifier::rlimit(60)]
pub fn replay_block_journal(
    local: &mut LocalCoordinator,
    steps: &Vec<JournalStep>,
    materialized: &IdMap<CommitSeq>,
) -> (result: Result<BlockJournalOverlay, StorageError>)
    requires
        old(local).wf(),
    ensures
        final(local).wf(),
        result is Ok <==> replayable(*old(local), steps@, materialized@),
        result matches Ok(overlay) ==> overlay_of(
            overlay,
            steps@,
            steps@.len() as int,
            materialized@,
        ) && replayed(
            *old(local),
            *final(local),
            steps@,
            steps@.len() as int,
            materialized@,
        ),
        result is Err ==> *final(local) == *old(local),
{
    let ghost before = *local;
    let overlay = match load_block_journal_overlay(
        steps,
        &local.metadata.device_specs,
        materialized,
    ) {
        Ok(overlay) => overlay,
        Err(error) => return Err(error),
    };
    let flushed = flushed_through(steps);
    match check_steps(local, steps, &flushed, materialized) {
        Ok(()) => {},
        Err(error) => return Err(error),
    }
    let mut next: usize = 0;
    proof {
        assert(steps@.take(0) =~= Seq::empty());
    }
    while next < steps.len()
        invariant
            next <= steps@.len(),
            before == *old(local),
            before.wf(),
            local.wf(),
            replayable(before, steps@, materialized@),
            forall|device_id: DeviceId|
                #![trigger top_flush(steps@, device_id)]
                top_flush(steps@, device_id) == if flushed@.contains_key(device_id.0) {
                    Some(flushed@[device_id.0])
                } else {
                    None
                },
            replayed(before, *local, steps@, next as int, materialized@),
        decreases steps@.len() - next,
    {
        assert(step_fits(before, steps@, materialized@, steps@[next as int]));
        replay_step(local, steps, next, &flushed, materialized, Ghost(before));
        next = next + 1;
    }
    Ok(overlay)
}

/// Takes one step of a journal.
#[verifier::rlimit(100)]
#[verifier::spinoff_prover]
fn replay_step(
    local: &mut LocalCoordinator,
    steps: &Vec<JournalStep>,
    next: usize,
    flushed: &IdMap<CommitSeq>,
    materialized: &IdMap<CommitSeq>,
    before: Ghost<LocalCoordinator>,
)
    requires
        next < steps@.len(),
        old(local).wf(),
        replayed(before@, *old(local), steps@, next as int, materialized@),
        step_fits(before@, steps@, materialized@, steps@[next as int]),
        forall|device_id: DeviceId|
            #![trigger top_flush(steps@, device_id)]
            top_flush(steps@, device_id) == if flushed@.contains_key(device_id.0) {
                Some(flushed@[device_id.0])
            } else {
                None
            },
    ensures
        final(local).wf(),
        replayed(before@, *final(local), steps@, next + 1, materialized@),
{
    let ghost then = *local;
    let ghost bs = then.block_size();
    let (device_id, epoch, seq): (DeviceId, WriterEpoch, Option<CommitSeq>) = match &steps[next] {
        JournalStep::Lease { device_id, writer_epoch } => (*device_id, *writer_epoch, None),
        JournalStep::Write(commit) => (
            commit.device_id,
            commit.writer_epoch,
            Some(commit.commit_seq),
        ),
        JournalStep::Flush { device_id, writer_epoch, durable_through } => (
            *device_id,
            *writer_epoch,
            Some(*durable_through),
        ),
    };
    proof {
        assert(then.metadata.device_heads@.dom().contains(device_id.0));
        assert(steps@.take(next + 1).drop_last() =~= steps@.take(next as int));
        assert(steps@.take(next + 1).last() == steps@[next as int]);
    }
    match seq {
        Some(seq) => {
            match local.metadata.observe_allocated_commit_seq(seq) {
                Ok(()) => {},
                Err(_) => {
                    assert(false);
                },
            }
        },
        None => {},
    }
    proof {
        assert(local.metadata.devices_wf(bs));
        assert(local.metadata.files_wf(bs));
        assert(local.wf());
    }
    match local.seed_block_writer_epoch(device_id, epoch) {
        Ok(()) => {},
        Err(_) => {
            assert(false);
        },
    }
    let ghost seeded = *local;
    if let JournalStep::Write(commit) = &steps[next] {
        if does_count(commit, flushed, materialized, Ghost(steps@)) {
            proof {
                assert forall|i: int| 0 <= i < commit.entries@.len() implies entry_usable(
                    seeded.segments(),
                    #[trigger] commit.entries@[i],
                ) by {
                    assert(entry_usable(before@.segments(), commit.entries@[i]));
                }
            }
            match local.mark_block_journal_segment_refs_referenced(commit) {
                Ok(()) => {},
                Err(_) => {
                    assert(false);
                },
            }
            let ghost marked = *local;
            match local.metadata.replay_block_journal_commit(commit.device_id, commit.commit_seq) {
                Ok(()) => {},
                Err(_) => {
                    assert(false);
                },
            }
            proof {
                assert(local.metadata.device_heads@.dom() =~= then.metadata.device_heads@.dom());
                lemma_moved_head_wf(marked.metadata, local.metadata, commit.device_id, bs);
                assert(local.wf());
            }
        }
    }
    proof {
        assert(local.metadata.device_heads@.dom() =~= then.metadata.device_heads@.dom());
        assert forall|id: u128| #[trigger] before@.segments().contains_key(id) implies
            local.segments()[id] == before@.segments()[id] || local.segments()[id] == referenced(
            before@.segments()[id],
        ) by {
            assert(then.segments().dom().contains(id));
            assert(seeded.segments().contains_key(id));
        }
        assert(local.segments().dom() =~= before@.segments().dom());
        assert forall|i: int| 0 <= i < next + 1 implies ((
        #[trigger] steps@[i]) matches JournalStep::Write(commit) ==> (counts(
            steps@,
            materialized@,
            commit,
        ) ==> commit_referenced(local.segments(), commit))) by {
            if i < next {
                if let JournalStep::Write(commit) = steps@[i] {
                    if counts(steps@, materialized@, commit) {
                        assert(commit_referenced(then.segments(), commit));
                        assert forall|k: int| 0 <= k < commit.entries@.len() implies ((
                        #[trigger] commit.entries@[k]) matches BlockJournalEntry::Segment {
                            segment_id,
                            ..
                        } ==> local.segments().contains_key(segment_id.0)
                            && local.segments()[segment_id.0].entry.state
                            == SegmentLifecycleState::Referenced) by {
                            if let BlockJournalEntry::Segment { segment_id, .. } =
                                commit.entries@[k] {
                                assert(then.segments().contains_key(segment_id.0));
                                assert(seeded.segments().contains_key(segment_id.0));
                            }
                        }
                    }
                }
            }
        }
        assert forall|d: DeviceId|
            #![trigger local.metadata.device_heads@[d.0]]
            before@.metadata.has_device(d) implies local.metadata.device_heads@[d.0] == (
        DeviceHead {
            latest_commit: head_after(
                steps@,
                next + 1,
                materialized@,
                d,
                before@.metadata.device_heads@[d.0].latest_commit,
            ),
            ..before@.metadata.device_heads@[d.0]
        }) by {
            assert(then.metadata.device_heads@[d.0] == then.metadata.device_heads@[d.0]);
        }
        assert forall|d: DeviceId| #[trigger] local.writer_epoch_of(d) == later_epoch(
            WriterEpoch(before@.writer_epoch_of(d)),
            top_epoch(steps@.take(next + 1), d),
        ).0 by {
            assert(then.writer_epoch_of(d) == later_epoch(
                WriterEpoch(before@.writer_epoch_of(d)),
                top_epoch(steps@.take(next as int), d),
            ).0);
            assert(local.writer_epoch_of(d) == seeded.writer_epoch_of(d));
        }
    }
}

/// A head that moves on to a commit in use leaves the devices consistent.
proof fn lemma_moved_head_wf(
    before: MetadataInner,
    after: MetadataInner,
    device_id: DeviceId,
    block_size: u64,
)
    requires
        before.devices_wf(block_size),
        before.files_wf(block_size),
        before.has_device(device_id),
        after == (MetadataInner { device_heads: after.device_heads, ..before }),
        after.device_heads@ == before.device_heads@.insert(
            device_id.0,
            after.device_heads@[device_id.0],
        ),
        after.device_heads@[device_id.0] == (DeviceHead {
            latest_commit: after.device_heads@[device_id.0].latest_commit,
            ..before.device_heads@[device_id.0]
        }),
        after.device_heads@[device_id.0].latest_commit.0 < before.next_commit_seq,
    ensures
        after.devices_wf(block_size),
        after.files_wf(block_size),
{
    assert forall|id: u128| #[trigger] after.device_heads@.contains_key(id) implies
        before.device_heads@.contains_key(id) && after.device_heads@[id].shard_roots
        == before.device_heads@[id].shard_roots && after.device_heads@[id].device_id
        == before.device_heads@[id].device_id by {}
    assert(heads_wf(
        after.nodes(),
        after.device_specs@,
        after.device_heads@,
        block_size,
        after.next_device_id,
    )) by {
        assert forall|id: u128| #[trigger] after.device_heads@.contains_key(id) implies id
            < after.next_device_id && head_wf(
            after.nodes(),
            after.device_specs@,
            after.device_heads@[id],
            id,
            block_size,
        ) by {
            assert(before.device_heads@.contains_key(id));
        }
    }
    assert(history_wf(after.nodes(), after.device_heads@, after.shard_commits@));
}

/// A write that counts is the last commit of its device after the replay, unless a
/// later one is.
pub proof fn law_replayed_head_has_every_write(
    steps: Seq<JournalStep>,
    materialized: Map<u128, CommitSeq>,
    at: int,
    upto: int,
    latest: CommitSeq,
)
    requires
        0 <= at < upto <= steps.len(),
        steps[at] matches JournalStep::Write(commit) && is_flushed(steps, commit) && is_missing(
            materialized,
            commit,
        ),
    ensures
        steps[at] matches JournalStep::Write(commit) && head_after(
            steps,
            upto,
            materialized,
            commit.device_id,
            latest,
        ).0 >= commit.commit_seq.0,
    decreases upto,
{
    if let JournalStep::Write(commit) = steps[at] {
        law_just_flushed_writes_count(steps, materialized, commit);
    }
    if upto - 1 > at {
        law_replayed_head_has_every_write(steps, materialized, at, upto - 1, latest);
    }
}

/// A replay moves a head no further than to a flushed write that the metadata lacks.
pub proof fn law_replayed_head_is_of_a_write(
    steps: Seq<JournalStep>,
    materialized: Map<u128, CommitSeq>,
    upto: int,
    device_id: DeviceId,
    latest: CommitSeq,
)
    requires
        0 <= upto <= steps.len(),
    ensures
        head_after(steps, upto, materialized, device_id, latest) == latest || exists|at: int|
            0 <= at < upto && ((#[trigger] steps[at]) matches JournalStep::Write(commit)
                && commit.device_id == device_id && is_flushed(steps, commit) && is_missing(
                materialized,
                commit,
            ) && head_after(steps, upto, materialized, device_id, latest) == commit.commit_seq),
        head_after(steps, upto, materialized, device_id, latest).0 >= latest.0,
    decreases upto,
{
    if upto > 0 {
        law_replayed_head_is_of_a_write(steps, materialized, upto - 1, device_id, latest);
        let now = head_after(steps, upto, materialized, device_id, latest);
        let before = head_after(steps, upto - 1, materialized, device_id, latest);
        if let JournalStep::Write(commit) = steps[upto - 1] {
            law_just_flushed_writes_count(steps, materialized, commit);
        }
        if now != latest {
            if now != before {
                assert(steps[upto - 1] is Write);
            } else {
                let at = choose|at: int|
                    0 <= at < upto - 1 && ((#[trigger] steps[at]) matches JournalStep::Write(commit)
                        && commit.device_id == device_id && is_flushed(steps, commit)
                        && is_missing(materialized, commit) && before == commit.commit_seq);
                assert(steps[at] is Write);
            }
        }
    }
}

/// A replay takes no more commit numbers than it has to: the next one is the one
/// behind a number that a step names, if it is not the one from before.
pub proof fn law_replay_takes_no_number_in_vain(steps: Seq<JournalStep>, upto: int, next: u64)
    requires
        0 <= upto <= steps.len(),
        forall|i: int|
            0 <= i < steps.len() ==> (step_seq(#[trigger] steps[i]) matches Some(seq) ==> seq.0
                < u64::MAX),
    ensures
        next_after(steps, upto, next) >= next,
        next_after(steps, upto, next) > next ==> exists|at: int|
            0 <= at < upto && (step_seq(#[trigger] steps[at]) matches Some(seq) && seq.0 + 1
                == next_after(steps, upto, next)),
    decreases upto,
{
    if upto > 0 {
        assert(step_seq(steps[upto - 1]) matches Some(seq) ==> seq.0 < u64::MAX);
        law_replay_takes_no_number_in_vain(steps, upto - 1, next);
        let (before, now) = (next_after(steps, upto - 1, next), next_after(steps, upto, next));
        if now > next && now == before {
            let at = choose|at: int|
                0 <= at < upto - 1 && (step_seq(#[trigger] steps[at]) matches Some(seq) && seq.0
                    + 1 == before);
            assert(step_seq(steps[at]) is Some);
        } else if now > next {
            assert(step_seq(steps[upto - 1]) is Some);
        }
    }
}

/// No commit number that a journal names is given out again after its replay.
pub proof fn law_replayed_numbers_are_taken(
    steps: Seq<JournalStep>,
    at: int,
    upto: int,
    next: u64,
)
    requires
        0 <= at < upto <= steps.len(),
        forall|i: int|
            0 <= i < steps.len() ==> (step_seq(#[trigger] steps[i]) matches Some(seq) ==> seq.0
                < u64::MAX),
    ensures
        step_seq(steps[at]) matches Some(seq) ==> seq.0 < next_after(steps, upto, next),
    decreases upto,
{
    assert(step_seq(steps[upto - 1]) matches Some(seq) ==> seq.0 < u64::MAX);
    if upto - 1 > at {
        law_replayed_numbers_are_taken(steps, at, upto - 1, next);
    }
}

} // verus!
