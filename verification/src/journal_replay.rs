//! Reading a block journal back: which writes count after a restart, and what
//! they make of the devices.
use vstd::prelude::*;

use crate::block_api::DeviceSpec;
use crate::error::StorageError;
use crate::id::{CommitSeq, DeviceId, WriterEpoch};
use crate::idmap::IdMap;
use crate::integrity::StorageNodeReadService;
use crate::journal_overlay::{
    BlockJournalOverlay, coalesced_runs, commit_byte, later_commit, later_epoch, on_blocks,
    read_value,
};
use crate::journal_records::{BlockJournalCommit, BlockJournalEntry, BlockJournalRecord};
use crate::journal_sources::OverlayByte;
use crate::persist_state::later;

verus! {

/// One step of a journal, with packed writes taken apart.
pub enum JournalStep {
    Lease { device_id: DeviceId, writer_epoch: WriterEpoch },
    Write(BlockJournalCommit),
    Flush { device_id: DeviceId, writer_epoch: WriterEpoch, durable_through: CommitSeq },
}

impl JournalStep {
    pub open spec fn device(self) -> DeviceId {
        match self {
            JournalStep::Lease { device_id, .. } => device_id,
            JournalStep::Write(commit) => commit.device_id,
            JournalStep::Flush { device_id, .. } => device_id,
        }
    }

    pub open spec fn epoch(self) -> WriterEpoch {
        match self {
            JournalStep::Lease { writer_epoch, .. } => writer_epoch,
            JournalStep::Write(commit) => commit.writer_epoch,
            JournalStep::Flush { writer_epoch, .. } => writer_epoch,
        }
    }
}

/// Whether some steps are those of a record.
pub open spec fn record_steps(record: BlockJournalRecord, steps: Seq<JournalStep>) -> bool {
    match record {
        BlockJournalRecord::Lease { device_id, writer_epoch } => steps == seq![
            JournalStep::Lease { device_id, writer_epoch },
        ],
        BlockJournalRecord::Write(commit) => steps == seq![JournalStep::Write(commit)],
        BlockJournalRecord::Flush { device_id, writer_epoch, durable_through } => steps == seq![
            JournalStep::Flush { device_id, writer_epoch, durable_through },
        ],
        BlockJournalRecord::PackedWrites(packed) => {
            &&& packed.valid()
            &&& steps.len() == packed.entries@.len()
            &&& forall|i: int|
                0 <= i < steps.len() ==> ((#[trigger] steps[i]) matches JournalStep::Write(commit)
                    && packed.stands_for(i, commit))
        },
    }
}

/// Whether some steps are those of some records, in their order.
pub open spec fn records_steps(records: Seq<BlockJournalRecord>, steps: Seq<JournalStep>) -> bool
    decreases records.len(),
{
    if records.len() == 0 {
        steps.len() == 0
    } else {
        exists|k: int|
            0 <= k <= steps.len() && records_steps(records.drop_last(), #[trigger] steps.take(k))
                && record_steps(records.last(), steps.skip(k))
    }
}

/// Whether the packed writes among some records can be taken apart.
pub open spec fn packs_valid(records: Seq<BlockJournalRecord>) -> bool {
    forall|i: int|
        0 <= i < records.len() ==> ((#[trigger] records[i]) matches BlockJournalRecord::PackedWrites(
            packed,
        ) ==> packed.valid())
}

/// The steps of a journal.
pub fn journal_steps(records: Vec<BlockJournalRecord>) -> (result: Result<
    Vec<JournalStep>,
    StorageError,
>)
    ensures
        result is Ok <==> packs_valid(records@),
        result matches Ok(steps) ==> records_steps(records@, steps@),
        result matches Err(error) ==> error is Corrupt,
{
    let ghost all = records@;
    let mut rest = records;
    let count: usize = rest.len();
    let mut steps: Vec<JournalStep> = Vec::new();
    let mut next: usize = 0;
    assert(all.take(0) =~= Seq::empty());
    assert(all.skip(0) =~= all);
    while next < count
        invariant
            next <= count,
            count == all.len(),
            all == records@,
            rest@ == all.skip(next as int),
            records_steps(all.take(next as int), steps@),
            packs_valid(all.take(next as int)),
        decreases count - next,
    {
        let ghost then = steps@;
        let record = rest.remove(0);
        proof {
            assert(record == all[next as int]);
            assert(rest@ =~= all.skip(next + 1));
            assert(all.take(next + 1).drop_last() =~= all.take(next as int));
            assert(all.take(next + 1).last() == record);
        }
        match record {
            BlockJournalRecord::Lease { device_id, writer_epoch } => {
                steps.push(JournalStep::Lease { device_id, writer_epoch });
            },
            BlockJournalRecord::Write(commit) => {
                steps.push(JournalStep::Write(commit));
            },
            BlockJournalRecord::Flush { device_id, writer_epoch, durable_through } => {
                steps.push(JournalStep::Flush { device_id, writer_epoch, durable_through });
            },
            BlockJournalRecord::PackedWrites(packed) => {
                let commits = match packed.expand_commits() {
                    Ok(commits) => commits,
                    Err(error) => {
                        assert(!packs_valid(all)) by {
                            assert(all[next as int] == BlockJournalRecord::PackedWrites(packed));
                        }
                        return Err(error);
                    },
                };
                let ghost expanded = commits@;
                let total: usize = commits.len();
                let mut left = commits;
                let mut taken: usize = 0;
                assert(expanded.skip(0) =~= expanded);
                while taken < total
                    invariant
                        taken <= total,
                        total == expanded.len(),
                        left@ == expanded.skip(taken as int),
                        steps@.len() == then.len() + taken,
                        steps@.take(then.len() as int) == then,
                        forall|i: int|
                            0 <= i < taken ==> #[trigger] steps@[then.len() + i]
                                == JournalStep::Write(expanded[i]),
                    decreases total - taken,
                {
                    let ghost before = steps@;
                    let commit = left.remove(0);
                    proof {
                        assert(commit == expanded[taken as int]);
                        assert(left@ =~= expanded.skip(taken + 1));
                    }
                    steps.push(JournalStep::Write(commit));
                    assert(steps@.take(then.len() as int) =~= before.take(then.len() as int));
                    taken = taken + 1;
                }
                proof {
                    let added = steps@.skip(then.len() as int);
                    assert forall|i: int| 0 <= i < added.len() implies (
                    (#[trigger] added[i]) matches JournalStep::Write(commit)
                        && packed.stands_for(i, commit)) by {
                        assert(added[i] == steps@[then.len() + i]);
                        assert(packed.stands_for(i, expanded[i]));
                    }
                }
            },
        }
        proof {
            let added = steps@.skip(then.len() as int);
            assert(steps@.take(then.len() as int) =~= then);
            if record is Lease || record is Write || record is Flush {
                assert(added =~= seq![steps@.last()]);
            }
            assert(record_steps(record, added));
            let k = then.len() as int;
            let more = all.take(next + 1);
            assert(records_steps(more.drop_last(), steps@.take(k)));
            assert(record_steps(more.last(), steps@.skip(k)));
            assert forall|i: int| 0 <= i < all.take(next + 1).len() implies ((
            #[trigger] all.take(next + 1)[i]) matches BlockJournalRecord::PackedWrites(packed)
                ==> packed.valid()) by {
                if i < next {
                    assert(all.take(next + 1)[i] == all.take(next as int)[i]);
                }
            }
        }
        next = next + 1;
    }
    assert(all.take(next as int) =~= all);
    Ok(steps)
}

/// The highest epoch that a device's steps name.
pub open spec fn top_epoch(steps: Seq<JournalStep>, device_id: DeviceId) -> WriterEpoch
    decreases steps.len(),
{
    if steps.len() == 0 {
        WriterEpoch(0)
    } else {
        let before = top_epoch(steps.drop_last(), device_id);
        if steps.last().device() == device_id {
            later_epoch(before, steps.last().epoch())
        } else {
            before
        }
    }
}

/// How far a device was flushed, if it was.
pub open spec fn top_flush(steps: Seq<JournalStep>, device_id: DeviceId) -> Option<CommitSeq>
    decreases steps.len(),
{
    if steps.len() == 0 {
        None
    } else {
        let before = top_flush(steps.drop_last(), device_id);
        match steps.last() {
            JournalStep::Flush { device_id: flushed, durable_through, .. } if flushed == device_id =>
                match before {
                    Some(earlier) => Some(later_commit(earlier, durable_through)),
                    None => Some(durable_through),
                },
            _ => before,
        }
    }
}

/// How far a device is durable.
pub open spec fn durable_end(steps: Seq<JournalStep>, device_id: DeviceId) -> CommitSeq {
    match top_flush(steps, device_id) {
        Some(flushed) => flushed,
        None => CommitSeq(0),
    }
}

/// Whether a write counts after a restart: it was flushed, and it is not in
/// the metadata yet.
pub open spec fn counts(
    steps: Seq<JournalStep>,
    materialized: Map<u128, CommitSeq>,
    commit: BlockJournalCommit,
) -> bool {
    &&& materialized.contains_key(commit.device_id.0) ==> commit.commit_seq.0
        > materialized[commit.device_id.0].0
    &&& top_flush(steps, commit.device_id) matches Some(flushed) && commit.commit_seq.0
        <= flushed.0
}

/// The byte that the journal has for a place of a device: that of the last
/// write that counts and covers it.
pub open spec fn journal_byte(
    steps: Seq<JournalStep>,
    upto: int,
    materialized: Map<u128, CommitSeq>,
    device_id: DeviceId,
    place: int,
) -> Option<OverlayByte>
    decreases upto,
{
    if upto <= 0 {
        None
    } else {
        let before = journal_byte(steps, upto - 1, materialized, device_id, place);
        match steps[upto - 1] {
            JournalStep::Write(commit) if commit.device_id == device_id && counts(
                steps,
                materialized,
                commit,
            ) => match commit_byte(commit.entries@, place) {
                Some(byte) => Some(byte),
                None => before,
            },
            _ => before,
        }
    }
}

/// Whether a write is one that its device can take.
pub open spec fn write_fits(specs: Map<u128, DeviceSpec>, commit: BlockJournalCommit) -> bool {
    &&& specs.contains_key(commit.device_id.0)
    &&& commit.valid_for(specs[commit.device_id.0])
}

/// Whether the writes of each device come in the order of their commits.
pub open spec fn writes_ascend(steps: Seq<JournalStep>) -> bool {
    forall|i: int, j: int|
        0 <= i < j < steps.len() ==> ((#[trigger] steps[i]) matches JournalStep::Write(first) ==> ((
        #[trigger] steps[j]) matches JournalStep::Write(second) ==> (first.device_id
            == second.device_id ==> first.commit_seq.0 < second.commit_seq.0)))
}

/// Whether all writes fit their devices.
pub open spec fn writes_fit(steps: Seq<JournalStep>, specs: Map<u128, DeviceSpec>) -> bool {
    forall|i: int|
        0 <= i < steps.len() ==> ((#[trigger] steps[i]) matches JournalStep::Write(commit)
            ==> write_fits(specs, commit))
}

/// Whether the writes that count lie on their devices' blocks.
pub open spec fn writes_on_blocks(
    steps: Seq<JournalStep>,
    specs: Map<u128, DeviceSpec>,
    materialized: Map<u128, CommitSeq>,
) -> bool {
    forall|i: int|
        0 <= i < steps.len() ==> ((#[trigger] steps[i]) matches JournalStep::Write(commit) ==> (
        counts(steps, materialized, commit) ==> commit_on_blocks(
            commit,
            specs[commit.device_id.0].block_size as u64,
        )))
}

pub open spec fn commit_on_blocks(commit: BlockJournalCommit, block_size: u64) -> bool {
    &&& block_size > 0
    &&& forall|r: int|
        0 <= r < coalesced_runs(commit.entries@).len() ==> on_blocks(
            (#[trigger] coalesced_runs(commit.entries@)[r]).range,
            block_size,
        )
}

fn max_commit(a: CommitSeq, b: CommitSeq) -> (later: CommitSeq)
    ensures
        later == later_commit(a, b),
{
    if a.0 < b.0 {
        b
    } else {
        a
    }
}

/// How far each device was flushed.
pub(crate) fn flushed_through(steps: &Vec<JournalStep>) -> (flushed: IdMap<CommitSeq>)
    ensures
        forall|device_id: DeviceId|
            #![trigger top_flush(steps@, device_id)]
            top_flush(steps@, device_id) == if flushed@.contains_key(device_id.0) {
                Some(flushed@[device_id.0])
            } else {
                None
            },
{
    let mut flushed: IdMap<CommitSeq> = IdMap::new();
    let mut next: usize = 0;
    assert(steps@.take(0) =~= Seq::empty());
    while next < steps.len()
        invariant
            next <= steps@.len(),
            forall|device_id: DeviceId|
                #![trigger top_flush(steps@.take(next as int), device_id)]
                top_flush(steps@.take(next as int), device_id) == if flushed@.contains_key(
                    device_id.0,
                ) {
                    Some(flushed@[device_id.0])
                } else {
                    None
                },
        decreases steps@.len() - next,
    {
        let ghost then = flushed@;
        match &steps[next] {
            JournalStep::Flush { device_id, durable_through, .. } => {
                let through = match flushed.get(device_id.0) {
                    Some(before) => max_commit(*before, *durable_through),
                    None => *durable_through,
                };
                flushed.insert(device_id.0, through);
            },
            _ => {},
        }
        proof {
            let less = steps@.take(next as int);
            let more = steps@.take(next + 1);
            assert(more.drop_last() =~= less);
            assert(more.last() == steps@[next as int]);
            assert forall|device_id: DeviceId|
                #![trigger top_flush(more, device_id)]
                top_flush(more, device_id) == if flushed@.contains_key(device_id.0) {
                    Some(flushed@[device_id.0])
                } else {
                    None
                } by {
                assert(top_flush(less, device_id) == if then.contains_key(device_id.0) {
                    Some(then[device_id.0])
                } else {
                    None
                });
            }
        }
        next = next + 1;
    }
    assert(steps@.take(next as int) =~= steps@);
    flushed
}

/// Holds the writes of a journal to their order and to their devices.
fn check_writes(steps: &Vec<JournalStep>, specs: &IdMap<DeviceSpec>) -> (result: Result<
    (),
    StorageError,
>)
    ensures
        result is Ok <==> writes_ascend(steps@) && writes_fit(steps@, specs@),
{
    let mut last: IdMap<CommitSeq> = IdMap::new();
    let mut next: usize = 0;
    while next < steps.len()
        invariant
            next <= steps@.len(),
            forall|i: int, j: int|
                0 <= i < j < next ==> ((#[trigger] steps@[i]) matches JournalStep::Write(first)
                    ==> ((#[trigger] steps@[j]) matches JournalStep::Write(second) ==> (
                first.device_id == second.device_id ==> first.commit_seq.0
                    < second.commit_seq.0))),
            forall|i: int|
                0 <= i < next ==> ((#[trigger] steps@[i]) matches JournalStep::Write(commit)
                    ==> write_fits(specs@, commit) && last@.contains_key(commit.device_id.0)
                    && commit.commit_seq.0 <= last@[commit.device_id.0].0),
            forall|id: u128| #[trigger]
                last@.contains_key(id) ==> exists|i: int|
                    0 <= i < next && ((#[trigger] steps@[i]) matches JournalStep::Write(commit)
                        && commit.device_id.0 == id && commit.commit_seq == last@[id]),
        decreases steps@.len() - next,
    {
        let ghost then = last@;
        match &steps[next] {
            JournalStep::Write(commit) => {
                match last.get(commit.device_id.0) {
                    Some(previous) => {
                        if commit.commit_seq.0 <= previous.0 {
                            proof {
                                let i = choose|i: int|
                                    0 <= i < next && ((
                                    #[trigger] steps@[i]) matches JournalStep::Write(earlier)
                                        && earlier.device_id.0 == commit.device_id.0
                                        && earlier.commit_seq == last@[commit.device_id.0]);
                                assert(steps@[i] is Write);
                                assert(steps@[next as int] == JournalStep::Write(*commit));
                                assert(!writes_ascend(steps@));
                            }
                            return Err(
                                StorageError::corrupt(
                                    "block journal write commit sequences are not monotonic",
                                ),
                            );
                        }
                    },
                    None => {},
                }
                let spec = match specs.get(commit.device_id.0) {
                    Some(spec) => spec,
                    None => {
                        proof {
                            assert(steps@[next as int] == JournalStep::Write(*commit));
                            assert(!write_fits(specs@, *commit));
                            assert(!writes_fit(steps@, specs@));
                        }
                        return Err(StorageError::not_found("device", commit.device_id.0));
                    },
                };
                match commit.validate(spec) {
                    Ok(()) => {},
                    Err(error) => {
                        proof {
                            assert(steps@[next as int] == JournalStep::Write(*commit));
                            assert(!write_fits(specs@, *commit));
                            assert(!writes_fit(steps@, specs@));
                        }
                        return Err(error);
                    },
                }
                last.insert(commit.device_id.0, commit.commit_seq);
                proof {
                    assert(steps@[next as int] == JournalStep::Write(*commit));
                    assert forall|id: u128| #[trigger] last@.contains_key(id) implies exists|i: int|
                        0 <= i < next + 1 && ((#[trigger] steps@[i]) matches JournalStep::Write(
                            other,
                        ) && other.device_id.0 == id && other.commit_seq == last@[id]) by {
                        if id == commit.device_id.0 {
                            assert(steps@[next as int] is Write);
                        } else {
                            assert(then.contains_key(id));
                            let i = choose|i: int|
                                0 <= i < next && ((
                                #[trigger] steps@[i]) matches JournalStep::Write(other)
                                    && other.device_id.0 == id && other.commit_seq == then[id]);
                            assert(steps@[i] is Write);
                        }
                    }
                }
            },
            _ => {
                proof {
                    assert forall|id: u128| #[trigger] last@.contains_key(id) implies exists|i: int|
                        0 <= i < next + 1 && ((#[trigger] steps@[i]) matches JournalStep::Write(
                            other,
                        ) && other.device_id.0 == id && other.commit_seq == last@[id]) by {
                        let i = choose|i: int|
                            0 <= i < next && ((#[trigger] steps@[i]) matches JournalStep::Write(
                                other,
                            ) && other.device_id.0 == id && other.commit_seq == then[id]);
                        assert(steps@[i] is Write);
                    }
                }
            },
        }
        next = next + 1;
    }
    Ok(())
}

/// Whether an overlay is what some steps of a journal make.
pub open spec fn overlay_of(
    overlay: BlockJournalOverlay,
    steps: Seq<JournalStep>,
    upto: int,
    materialized: Map<u128, CommitSeq>,
) -> bool {
    &&& overlay.wf()
    &&& forall|device_id: DeviceId, place: int| #[trigger]
        overlay.byte_of(device_id, place) == journal_byte(
            steps,
            upto,
            materialized,
            device_id,
            place,
        )
    &&& forall|device_id: DeviceId| #[trigger]
        overlay.epoch_of(device_id) == top_epoch(steps.take(upto), device_id)
    &&& forall|device_id: DeviceId| #[trigger]
        overlay.durable_of(device_id) == durable_end(steps.take(upto), device_id)
}

/// Reads a journal back: the writes that count, newest last, and how far each
/// device is durable.
#[verifier::rlimit(60)]
pub fn load_block_journal_overlay(
    steps: &Vec<JournalStep>,
    specs: &IdMap<DeviceSpec>,
    materialized: &IdMap<CommitSeq>,
) -> (result: Result<BlockJournalOverlay, StorageError>)
    ensures
        result is Ok <==> writes_ascend(steps@) && writes_fit(steps@, specs@) && writes_on_blocks(
            steps@,
            specs@,
            materialized@,
        ),
        result matches Ok(overlay) ==> overlay_of(
            overlay,
            steps@,
            steps@.len() as int,
            materialized@,
        ),
{
    match check_writes(steps, specs) {
        Ok(()) => {},
        Err(error) => return Err(error),
    }
    let flushed = flushed_through(steps);
    let mut overlay = BlockJournalOverlay::new();
    let mut next: usize = 0;
    assert(steps@.take(0) =~= Seq::empty());
    while next < steps.len()
        invariant
            next <= steps@.len(),
            writes_fit(steps@, specs@),
            forall|device_id: DeviceId|
                #![trigger top_flush(steps@, device_id)]
                top_flush(steps@, device_id) == if flushed@.contains_key(device_id.0) {
                    Some(flushed@[device_id.0])
                } else {
                    None
                },
            overlay_of(overlay, steps@, next as int, materialized@),
            forall|device_id: DeviceId|
                (#[trigger] overlay.block_size_of(device_id) matches Some(size)
                    ==> specs@.contains_key(device_id.0) && size
                    == specs@[device_id.0].block_size),
            forall|i: int|
                0 <= i < next ==> ((#[trigger] steps@[i]) matches JournalStep::Write(commit) ==> (
                counts(steps@, materialized@, commit) ==> commit_on_blocks(
                    commit,
                    specs@[commit.device_id.0].block_size as u64,
                ))),
        decreases steps@.len() - next,
    {
        let ghost then = overlay;
        proof {
            assert(steps@.take(next + 1).drop_last() =~= steps@.take(next as int));
            assert(steps@.take(next + 1).last() == steps@[next as int]);
        }
        match &steps[next] {
            JournalStep::Lease { device_id, writer_epoch } => {
                overlay.set_writer_epoch(*device_id, *writer_epoch);
                proof {
                    lemma_other_devices(then, overlay, *device_id);
                }
            },
            JournalStep::Flush { device_id, writer_epoch, durable_through } => {
                overlay.mark_durable(*device_id, *writer_epoch, *durable_through);
                proof {
                    lemma_other_devices(then, overlay, *device_id);
                }
            },
            JournalStep::Write(commit) => {
                assert(steps@[next as int] == JournalStep::Write(*commit));
                assert(write_fits(specs@, *commit));
                overlay.set_writer_epoch(commit.device_id, commit.writer_epoch);
                let ghost seeded = overlay;
                let fresh = match materialized.get(commit.device_id.0) {
                    Some(high) => commit.commit_seq.0 > high.0,
                    None => true,
                };
                let durable = match flushed.get(commit.device_id.0) {
                    Some(high) => commit.commit_seq.0 <= high.0,
                    None => false,
                };
                proof {
                    lemma_other_devices(then, seeded, commit.device_id);
                    assert(top_flush(steps@, commit.device_id) == top_flush(
                        steps@,
                        commit.device_id,
                    ));
                    assert((fresh && durable) == counts(steps@, materialized@, *commit));
                }
                if fresh && durable {
                    let block_size: u64 = match specs.get(commit.device_id.0) {
                        Some(spec) => spec.block_size as u64,
                        None => 0,
                    };
                    proof {
                        let spec = specs@[commit.device_id.0];
                        assert forall|i: int| 0 <= i < commit.entries@.len() implies (
                        #[trigger] commit.entries@[i]).covers().end() <= u64::MAX
                            && commit.entries@[i].payload_fits() by {
                            assert(commit.entries@[i].covers().fits_device(spec));
                        }
                    }
                    match overlay.apply_commit(commit, block_size) {
                        Ok(()) => {
                            proof {
                                lemma_other_devices(seeded, overlay, commit.device_id);
                            }
                        },
                        Err(error) => {
                            assert(!commit_on_blocks(
                                *commit,
                                specs@[commit.device_id.0].block_size as u64,
                            ));
                            return Err(error);
                        },
                    }
                }
            },
        }
        proof {
            assert forall|device_id: DeviceId, place: int| #[trigger]
                overlay.byte_of(device_id, place) == journal_byte(
                    steps@,
                    next + 1,
                    materialized@,
                    device_id,
                    place,
                ) by {
                assert(then.byte_of(device_id, place) == journal_byte(
                    steps@,
                    next as int,
                    materialized@,
                    device_id,
                    place,
                ));
            }
            assert forall|device_id: DeviceId| #[trigger]
                overlay.epoch_of(device_id) == top_epoch(steps@.take(next + 1), device_id) by {
                assert(then.epoch_of(device_id) == top_epoch(steps@.take(next as int), device_id));
            }
            assert forall|device_id: DeviceId| #[trigger]
                overlay.durable_of(device_id) == durable_end(steps@.take(next + 1), device_id) by {
                assert(then.durable_of(device_id) == durable_end(
                    steps@.take(next as int),
                    device_id,
                ));
            }
            assert forall|device_id: DeviceId| (
            #[trigger] overlay.block_size_of(device_id) matches Some(size) ==> specs@.contains_key(
                device_id.0,
            ) && size == specs@[device_id.0].block_size) by {
                assert(then.block_size_of(device_id) matches Some(size) ==> specs@.contains_key(
                    device_id.0,
                ) && size == specs@[device_id.0].block_size);
            }
        }
        next = next + 1;
    }
    assert(steps@.take(next as int) =~= steps@);
    Ok(overlay)
}

/// A change to one device leaves the others.
proof fn lemma_other_devices(
    before: BlockJournalOverlay,
    after: BlockJournalOverlay,
    device_id: DeviceId,
)
    requires
        after.same_but(&before, device_id),
    ensures
        forall|other: DeviceId, place: int|
            other != device_id ==> #[trigger] after.byte_of(other, place) == before.byte_of(
                other,
                place,
            ),
        forall|other: DeviceId|
            other != device_id ==> #[trigger] after.epoch_of(other) == before.epoch_of(other),
        forall|other: DeviceId|
            other != device_id ==> #[trigger] after.durable_of(other) == before.durable_of(other),
        forall|other: DeviceId|
            other != device_id ==> #[trigger] after.block_size_of(other) == before.block_size_of(
                other,
            ),
{
    assert forall|other: DeviceId| other != device_id implies after.devices@.contains_key(other.0)
        == before.devices@.contains_key(other.0) && (after.devices@.contains_key(other.0)
        ==> after.devices@[other.0] == before.devices@[other.0]) by {
        assert(after.devices@.remove(device_id.0).contains_key(other.0)
            == after.devices@.contains_key(other.0));
        assert(before.devices@.remove(device_id.0).contains_key(other.0)
            == before.devices@.contains_key(other.0));
        if after.devices@.contains_key(other.0) {
            assert(after.devices@.remove(device_id.0)[other.0] == after.devices@[other.0]);
            assert(before.devices@.remove(device_id.0)[other.0] == before.devices@[other.0]);
        }
    }
}

/// Whether a step flushes a write: it is of the write's device and reaches as far
/// as the write's commit.
pub open spec fn flushes(step: JournalStep, commit: BlockJournalCommit) -> bool {
    step matches JournalStep::Flush { device_id, durable_through, .. } && device_id
        == commit.device_id && commit.commit_seq.0 <= durable_through.0
}

/// Whether some step of a journal, before the write or behind it, flushes it.
pub open spec fn is_flushed(steps: Seq<JournalStep>, commit: BlockJournalCommit) -> bool {
    exists|i: int| 0 <= i < steps.len() && flushes(#[trigger] steps[i], commit)
}

/// Whether metadata that is durable up to some commits lacks a write.
pub open spec fn is_missing(
    materialized: Map<u128, CommitSeq>,
    commit: BlockJournalCommit,
) -> bool {
    !(materialized.contains_key(commit.device_id.0) && commit.commit_seq.0
        <= materialized[commit.device_id.0].0)
}

/// A device is durable as far as the furthest of its flushes reaches: no flush
/// reaches further, and one reaches just as far, if there is any.
pub proof fn law_durable_end_is_the_furthest_flush(steps: Seq<JournalStep>, device_id: DeviceId)
    ensures
        forall|i: int|
            0 <= i < steps.len() ==> ((#[trigger] steps[i]) matches JournalStep::Flush {
                device_id: flushed,
                durable_through,
                ..
            } ==> (flushed == device_id ==> durable_through.0 <= durable_end(steps, device_id).0)),
        (exists|i: int|
            0 <= i < steps.len() && ((#[trigger] steps[i]) matches JournalStep::Flush {
                device_id: flushed,
                durable_through,
                ..
            } && flushed == device_id && durable_through == durable_end(steps, device_id))) || (
        durable_end(steps, device_id) == CommitSeq(0) && forall|i: int|
            0 <= i < steps.len() ==> !((#[trigger] steps[i]) matches JournalStep::Flush {
                device_id: flushed,
                ..
            } && flushed == device_id)),
{
    lemma_top_flush(steps, device_id);
    match top_flush(steps, device_id) {
        Some(_) => {
            let i = choose|i: int|
                0 <= i < steps.len() && ((#[trigger] steps[i]) matches JournalStep::Flush {
                    device_id: flushed,
                    durable_through,
                    ..
                } && flushed == device_id && top_flush(steps, device_id) == Some(durable_through));
            assert(steps[i] is Flush);
        },
        None => {},
    }
}

proof fn lemma_top_flush(steps: Seq<JournalStep>, device_id: DeviceId)
    ensures
        forall|i: int|
            0 <= i < steps.len() ==> ((#[trigger] steps[i]) matches JournalStep::Flush {
                device_id: flushed,
                durable_through,
                ..
            } ==> (flushed == device_id ==> (top_flush(steps, device_id) matches Some(top)
                && durable_through.0 <= top.0))),
        top_flush(steps, device_id) is Some ==> exists|i: int|
            0 <= i < steps.len() && ((#[trigger] steps[i]) matches JournalStep::Flush {
                device_id: flushed,
                durable_through,
                ..
            } && flushed == device_id && top_flush(steps, device_id) == Some(durable_through)),
    decreases steps.len(),
{
    if steps.len() > 0 {
        let fewer = steps.drop_last();
        lemma_top_flush(fewer, device_id);
        assert(steps[steps.len() - 1] == steps.last());
        assert forall|i: int| 0 <= i < steps.len() implies ((
        #[trigger] steps[i]) matches JournalStep::Flush {
            device_id: flushed,
            durable_through,
            ..
        } ==> (flushed == device_id ==> (top_flush(steps, device_id) matches Some(top)
            && durable_through.0 <= top.0))) by {
            if i < fewer.len() {
                assert(fewer[i] == steps[i]);
            }
        }
        if top_flush(steps, device_id) is Some {
            if top_flush(steps, device_id) == top_flush(fewer, device_id) {
                let i = choose|i: int|
                    0 <= i < fewer.len() && ((#[trigger] fewer[i]) matches JournalStep::Flush {
                        device_id: flushed,
                        durable_through,
                        ..
                    } && flushed == device_id && top_flush(fewer, device_id) == Some(
                        durable_through,
                    ));
                assert(steps[i] == fewer[i]);
            } else {
                assert(steps[steps.len() - 1] is Flush);
            }
        }
    }
}

/// After a restart just those writes count that some flush of their device reaches
/// and that the metadata lacks.
pub proof fn law_just_flushed_writes_count(
    steps: Seq<JournalStep>,
    materialized: Map<u128, CommitSeq>,
    commit: BlockJournalCommit,
)
    ensures
        counts(steps, materialized, commit) <==> is_flushed(steps, commit) && is_missing(
            materialized,
            commit,
        ),
{
    lemma_top_flush(steps, commit.device_id);
    if is_flushed(steps, commit) {
        let i = choose|i: int| 0 <= i < steps.len() && flushes(#[trigger] steps[i], commit);
        assert(steps[i] is Flush);
    }
    if counts(steps, materialized, commit) {
        let i = choose|i: int|
            0 <= i < steps.len() && ((#[trigger] steps[i]) matches JournalStep::Flush {
                device_id: flushed,
                durable_through,
                ..
            } && flushed == commit.device_id && top_flush(steps, commit.device_id) == Some(
                durable_through,
            ));
        assert(flushes(steps[i], commit));
    }
}

/// The writer epoch of a device is the highest that one of its steps names: none is
/// higher, and one is just as high, if there is any.
pub proof fn law_epoch_is_the_highest(steps: Seq<JournalStep>, device_id: DeviceId)
    ensures
        forall|i: int|
            0 <= i < steps.len() && (#[trigger] steps[i]).device() == device_id
                ==> steps[i].epoch().0 <= top_epoch(steps, device_id).0,
        top_epoch(steps, device_id).0 > 0 ==> exists|i: int|
            0 <= i < steps.len() && (#[trigger] steps[i]).device() == device_id && steps[i].epoch()
                == top_epoch(steps, device_id),
    decreases steps.len(),
{
    if steps.len() > 0 {
        let fewer = steps.drop_last();
        law_epoch_is_the_highest(fewer, device_id);
        assert(steps[steps.len() - 1] == steps.last());
        assert forall|i: int|
            0 <= i < steps.len() && (#[trigger] steps[i]).device() == device_id implies
            steps[i].epoch().0 <= top_epoch(steps, device_id).0 by {
            if i < fewer.len() {
                assert(fewer[i] == steps[i]);
            }
        }
        if top_epoch(steps, device_id).0 > 0 {
            if top_epoch(steps, device_id) == top_epoch(fewer, device_id) {
                let i = choose|i: int|
                    0 <= i < fewer.len() && (#[trigger] fewer[i]).device() == device_id
                        && fewer[i].epoch() == top_epoch(fewer, device_id);
                assert(steps[i] == fewer[i]);
            } else {
                assert(steps[steps.len() - 1].device() == device_id);
            }
        }
    }
}

/// After a restart a flushed write is read back: where a flush of its device reaches
/// its commit and the metadata lacks it, the journal has its bytes, unless a later
/// such write covers them.
pub proof fn law_flushed_write_survives(
    steps: Seq<JournalStep>,
    materialized: Map<u128, CommitSeq>,
    at: int,
    flush: int,
    place: int,
)
    requires
        0 <= at < steps.len(),
        0 <= flush < steps.len(),
        steps[at] matches JournalStep::Write(commit) && flushes(steps[flush], commit)
            && is_missing(materialized, commit) && commit_byte(commit.entries@, place) is Some,
        forall|later: int|
            at < later < steps.len() ==> ((#[trigger] steps[later]) matches JournalStep::Write(other)
                ==> (other.device_id == steps[at].device() && is_flushed(steps, other)
                && is_missing(materialized, other) ==> commit_byte(other.entries@, place)
                is None)),
    ensures
        steps[at] matches JournalStep::Write(commit) && journal_byte(
            steps,
            steps.len() as int,
            materialized,
            commit.device_id,
            place,
        ) == commit_byte(commit.entries@, place),
{
    if let JournalStep::Write(commit) = steps[at] {
        law_just_flushed_writes_count(steps, materialized, commit);
    }
    assert forall|later: int| at < later < steps.len() implies ((
    #[trigger] steps[later]) matches JournalStep::Write(other) ==> (other.device_id
        == steps[at].device() && counts(steps, materialized, other) ==> commit_byte(
        other.entries@,
        place,
    ) is None)) by {
        if let JournalStep::Write(other) = steps[later] {
            law_just_flushed_writes_count(steps, materialized, other);
        }
    }
    lemma_last_write(steps, materialized, at, steps.len() as int, place);
}

/// What the journal shows at a place is of a flushed write that the metadata lacks,
/// and no such write behind it covers the place; where no such write covers it, the
/// journal shows nothing.
pub proof fn law_shown_byte_is_of_the_last_flushed_write(
    steps: Seq<JournalStep>,
    upto: int,
    materialized: Map<u128, CommitSeq>,
    device_id: DeviceId,
    place: int,
)
    requires
        0 <= upto <= steps.len(),
    ensures
        journal_byte(steps, upto, materialized, device_id, place) is Some ==> exists|at: int|
            0 <= at < upto && shows(steps, materialized, #[trigger] steps[at], device_id, place)
                && journal_byte(steps, upto, materialized, device_id, place) == commit_byte(
                steps[at]->Write_0.entries@,
                place,
            ) && forall|later: int|
                at < later < upto ==> !shows(
                    steps,
                    materialized,
                    #[trigger] steps[later],
                    device_id,
                    place,
                ),
        journal_byte(steps, upto, materialized, device_id, place) is None ==> forall|at: int|
            0 <= at < upto ==> !shows(steps, materialized, #[trigger] steps[at], device_id, place),
    decreases upto,
{
    if upto > 0 {
        let last = steps[upto - 1];
        law_shown_byte_is_of_the_last_flushed_write(
            steps,
            upto - 1,
            materialized,
            device_id,
            place,
        );
        if let JournalStep::Write(commit) = last {
            law_just_flushed_writes_count(steps, materialized, commit);
        }
        let before = journal_byte(steps, upto - 1, materialized, device_id, place);
        if shows(steps, materialized, last, device_id, place) {
            assert(shows(steps, materialized, steps[upto - 1], device_id, place));
        } else if before is Some {
            let at = choose|at: int|
                0 <= at < upto - 1 && shows(
                    steps,
                    materialized,
                    #[trigger] steps[at],
                    device_id,
                    place,
                ) && before == commit_byte(steps[at]->Write_0.entries@, place) && forall|later: int|
                    at < later < upto - 1 ==> !shows(
                        steps,
                        materialized,
                        #[trigger] steps[later],
                        device_id,
                        place,
                    );
            assert(shows(steps, materialized, steps[at], device_id, place));
        }
    }
}

/// Whether a step is a flushed write to a device that the metadata lacks and that
/// covers a place.
pub open spec fn shows(
    steps: Seq<JournalStep>,
    materialized: Map<u128, CommitSeq>,
    step: JournalStep,
    device_id: DeviceId,
    place: int,
) -> bool {
    step matches JournalStep::Write(commit) && commit.device_id == device_id && is_flushed(
        steps,
        commit,
    ) && is_missing(materialized, commit) && commit_byte(commit.entries@, place) is Some
}

/// The last entry of a commit at a place decides what is there: the byte that a write
/// carries, the byte of the segment that an entry names, or a zero.
pub proof fn law_last_entry_decides(entries: Seq<BlockJournalEntry>, at: int, place: int)
    requires
        0 <= at < entries.len(),
        entries[at].covers().contains(place),
        forall|later: int|
            at < later < entries.len() ==> !(#[trigger] entries[later]).covers().contains(place),
    ensures
        commit_byte(entries, place) == Some(
            match entries[at] {
                BlockJournalEntry::Write { range, payload_integrity, bytes } => OverlayByte::Inline {
                    value: bytes@[place - range.offset],
                    payload_integrity,
                },
                BlockJournalEntry::Segment { range, storage_node, segment_id, segment_offset, .. } => OverlayByte::Stored {
                    storage_node,
                    segment_id,
                    offset: segment_offset + (place - range.offset),
                },
                BlockJournalEntry::Sparse { .. } => OverlayByte::Zero,
            },
        ),
    decreases entries.len(),
{
    if at < entries.len() - 1 {
        let fewer = entries.drop_last();
        assert(!entries[entries.len() - 1].covers().contains(place));
        assert(fewer[at] == entries[at]);
        assert forall|later: int| at < later < fewer.len() implies !(
        #[trigger] fewer[later]).covers().contains(place) by {
            assert(fewer[later] == entries[later]);
        }
        law_last_entry_decides(fewer, at, place);
    }
}

/// After a restart a read gives back the bytes of a flushed write that carries them
/// in the journal.
pub proof fn law_flushed_bytes_are_read_back<S: StorageNodeReadService>(
    storage: &S,
    overlay: BlockJournalOverlay,
    steps: Seq<JournalStep>,
    materialized: Map<u128, CommitSeq>,
    at: int,
    flush: int,
    entry: int,
    place: int,
)
    requires
        overlay_of(overlay, steps, steps.len() as int, materialized),
        0 <= at < steps.len(),
        0 <= flush < steps.len(),
        steps[at] matches JournalStep::Write(commit) && flushes(steps[flush], commit)
            && is_missing(materialized, commit) && 0 <= entry < commit.entries@.len()
            && commit.entries@[entry] is Write && commit.entries@[entry].covers().contains(place)
            && forall|k: int|
            entry < k < commit.entries@.len() ==> !(
            #[trigger] commit.entries@[k]).covers().contains(place),
        forall|later: int|
            at < later < steps.len() ==> ((#[trigger] steps[later]) matches JournalStep::Write(other)
                ==> (other.device_id == steps[at].device() && is_flushed(steps, other)
                && is_missing(materialized, other) ==> commit_byte(other.entries@, place)
                is None)),
    ensures
        steps[at] matches JournalStep::Write(commit) && (overlay.byte_of(
            commit.device_id,
            place,
        ) matches Some(byte) && read_value(storage, byte)
            == commit.entries@[entry]->Write_bytes@[place
            - commit.entries@[entry]->Write_range.offset]),
{
    if let JournalStep::Write(commit) = steps[at] {
        law_last_entry_decides(commit.entries@, entry, place);
        law_flushed_write_survives(steps, materialized, at, flush, place);
        assert(overlay.byte_of(commit.device_id, place) == journal_byte(
            steps,
            steps.len() as int,
            materialized,
            commit.device_id,
            place,
        ));
    }
}

proof fn lemma_last_write(
    steps: Seq<JournalStep>,
    materialized: Map<u128, CommitSeq>,
    at: int,
    upto: int,
    place: int,
)
    requires
        0 <= at < upto <= steps.len(),
        steps[at] matches JournalStep::Write(commit) && counts(steps, materialized, commit)
            && commit_byte(commit.entries@, place) is Some,
        forall|later: int|
            at < later < steps.len() ==> ((#[trigger] steps[later]) matches JournalStep::Write(other)
                ==> (other.device_id == steps[at].device() && counts(steps, materialized, other)
                ==> commit_byte(other.entries@, place) is None)),
    ensures
        steps[at] matches JournalStep::Write(commit) && journal_byte(
            steps,
            upto,
            materialized,
            commit.device_id,
            place,
        ) == commit_byte(commit.entries@, place),
    decreases upto,
{
    if upto - 1 > at {
        lemma_last_write(steps, materialized, at, upto - 1, place);
        assert(steps[upto - 1] == steps[upto - 1]);
    }
}

/// A write that no flush reaches is gone after a restart.
pub proof fn law_unflushed_write_is_dropped(
    steps: Seq<JournalStep>,
    materialized: Map<u128, CommitSeq>,
    commit: BlockJournalCommit,
)
    requires
        forall|i: int| 0 <= i < steps.len() ==> !flushes(#[trigger] steps[i], commit),
    ensures
        !counts(steps, materialized, commit),
{
    law_just_flushed_writes_count(steps, materialized, commit);
}

} // verus!
