//! Who makes commits durable, and who waits: one run is under way at a time,
//! and a request is answered once the durable end has reached it.
use vstd::prelude::*;

use crate::delta_records::BlockDeltaCommit;
use crate::error::StorageError;
use crate::export_laws::has_row;
use crate::id::CommitSeq;
use crate::idmap::IdMap;

verus! {

/// How far commits are durable and how far they are asked to be.
#[derive(Clone, Copy, Debug)]
pub struct PersistState {
    pub requested_through: CommitSeq,
    pub durable_through: CommitSeq,
    pub in_flight: bool,
    pub generation: u64,
    pub last_error: Option<(u64, StorageError)>,
}

/// What a caller that needs a commit to be durable does next.
#[derive(Clone, Copy, Debug)]
pub enum PersistStep {
    /// The commit is durable.
    Reached,
    /// The caller makes everything up to a commit durable.
    Run { target: CommitSeq },
    /// Another caller is at it; wait for the end of its run.
    Wait { generation: u64 },
}

/// What a caller finds after a wait.
#[derive(Clone, Copy, Debug)]
pub enum WaitOutcome {
    Reached,
    Failed(StorageError),
    Again,
}

pub open spec fn later(a: CommitSeq, b: CommitSeq) -> CommitSeq {
    if a.0 < b.0 {
        b
    } else {
        a
    }
}

fn later_of(a: CommitSeq, b: CommitSeq) -> (max: CommitSeq)
    ensures
        max == later(a, b),
{
    if a.0 < b.0 {
        b
    } else {
        a
    }
}

pub open spec fn next_generation(generation: u64) -> u64 {
    if generation == u64::MAX {
        generation
    } else {
        (generation + 1) as u64
    }
}

impl PersistState {
    pub open spec fn wf(&self) -> bool {
        self.durable_through.0 <= self.requested_through.0
    }

    pub fn new(durable_through: CommitSeq) -> (state: PersistState)
        ensures
            state.wf(),
            state.durable_through == durable_through,
            state.requested_through == durable_through,
            !state.in_flight,
            state.generation == 0,
            state.last_error is None,
    {
        PersistState {
            requested_through: durable_through,
            durable_through,
            in_flight: false,
            generation: 0,
            last_error: None,
        }
    }

    /// Asks for a commit to be durable.
    pub fn step(&mut self, required: CommitSeq) -> (step: PersistStep)
        requires
            old(self).wf(),
        ensures
            final(self).wf(),
            final(self).requested_through == later(old(self).requested_through, required),
            final(self).durable_through == old(self).durable_through,
            final(self).generation == old(self).generation,
            final(self).last_error == old(self).last_error,
            step == if old(self).durable_through.0 >= required.0 {
                PersistStep::Reached
            } else if old(self).in_flight {
                PersistStep::Wait { generation: old(self).generation }
            } else {
                PersistStep::Run { target: final(self).requested_through }
            },
            final(self).in_flight == (old(self).in_flight || step is Run),
    {
        self.requested_through = later_of(self.requested_through, required);
        if self.durable_through.0 >= required.0 {
            return PersistStep::Reached;
        }
        if self.in_flight {
            return PersistStep::Wait { generation: self.generation };
        }
        self.in_flight = true;
        PersistStep::Run { target: self.requested_through }
    }

    /// Asks for everything to be durable; `false` if another run is under
    /// way.
    pub fn start_full(&mut self) -> (started: bool)
        requires
            old(self).wf(),
        ensures
            final(self).wf(),
            started == !old(self).in_flight,
            *final(self) == (PersistState { in_flight: true, ..*old(self) }),
    {
        let started = !self.in_flight;
        self.in_flight = true;
        started
    }

    /// Ends the run under way.
    fn end(&mut self, outcome: Result<CommitSeq, StorageError>) -> (result: Result<
        (),
        StorageError,
    >)
        requires
            old(self).wf(),
        ensures
            final(self).wf(),
            !final(self).in_flight,
            final(self).generation == next_generation(old(self).generation),
            match outcome {
                Ok(durable) => {
                    &&& result is Ok
                    &&& final(self).durable_through == later(old(self).durable_through, durable)
                    &&& final(self).requested_through == later(
                        old(self).requested_through,
                        final(self).durable_through,
                    )
                    &&& final(self).last_error is None
                },
                Err(error) => {
                    &&& result == Err::<(), StorageError>(error)
                    &&& final(self).durable_through == old(self).durable_through
                    &&& final(self).requested_through == old(self).requested_through
                    &&& final(self).last_error == Some((final(self).generation, error))
                },
            },
    {
        self.in_flight = false;
        if self.generation < u64::MAX {
            self.generation = self.generation + 1;
        }
        match outcome {
            Ok(durable) => {
                self.durable_through = later_of(self.durable_through, durable);
                self.requested_through = later_of(self.requested_through, self.durable_through);
                self.last_error = None;
                Ok(())
            },
            Err(error) => {
                self.last_error = Some((self.generation, error));
                Err(error)
            },
        }
    }

    /// Ends a run for a commit; success means that the commit is durable.
    pub fn finish(
        &mut self,
        required: CommitSeq,
        outcome: Result<CommitSeq, StorageError>,
    ) -> (result: Result<(), StorageError>)
        requires
            old(self).wf(),
        ensures
            final(self).wf(),
            !final(self).in_flight,
            final(self).generation == next_generation(old(self).generation),
            final(self).durable_through.0 >= old(self).durable_through.0,
            match outcome {
                Ok(durable) => {
                    &&& final(self).durable_through == later(old(self).durable_through, durable)
                    &&& final(self).last_error is None
                    &&& result is Ok <==> final(self).durable_through.0 >= required.0
                    &&& result matches Err(error) ==> error is Conflict
                },
                Err(error) => {
                    &&& final(self).durable_through == old(self).durable_through
                    &&& final(self).last_error == Some((final(self).generation, error))
                    &&& result == Err::<(), StorageError>(error)
                },
            },
    {
        match self.end(outcome) {
            Ok(()) => {
                if self.durable_through.0 >= required.0 {
                    Ok(())
                } else {
                    Err(
                        StorageError::conflict(
                            "durable persist did not reach required commit sequence",
                        ),
                    )
                }
            },
            Err(error) => Err(error),
        }
    }

    /// Ends a run for everything.
    pub fn finish_full(&mut self, outcome: Result<CommitSeq, StorageError>) -> (result: Result<
        (),
        StorageError,
    >)
        requires
            old(self).wf(),
        ensures
            final(self).wf(),
            !final(self).in_flight,
            final(self).generation == next_generation(old(self).generation),
            match outcome {
                Ok(durable) => {
                    &&& result is Ok
                    &&& final(self).durable_through == later(old(self).durable_through, durable)
                    &&& final(self).last_error is None
                },
                Err(error) => {
                    &&& result == Err::<(), StorageError>(error)
                    &&& final(self).durable_through == old(self).durable_through
                    &&& final(self).last_error == Some((final(self).generation, error))
                },
            },
    {
        self.end(outcome)
    }

    /// Looks again after a wait that began at a generation.
    pub fn after_wait(&self, required: CommitSeq, generation: u64) -> (outcome: WaitOutcome)
        ensures
            outcome == if self.durable_through.0 >= required.0 {
                WaitOutcome::Reached
            } else {
                match self.last_error {
                    Some((failed, error)) if self.generation != generation && failed
                        == self.generation => WaitOutcome::Failed(error),
                    _ => WaitOutcome::Again,
                }
            },
    {
        if self.durable_through.0 >= required.0 {
            return WaitOutcome::Reached;
        }
        match self.last_error {
            Some((failed, error)) => if self.generation != generation && failed
                == self.generation {
                WaitOutcome::Failed(error)
            } else {
                WaitOutcome::Again
            },
            None => WaitOutcome::Again,
        }
    }
}

/// What is durable stays durable: a run, however it ends, never moves the
/// durable end back, and only a run that reached a commit answers for it.
pub proof fn law_durable_end_only_moves_on(before: PersistState, after: PersistState, outcome: Result<
    CommitSeq,
    StorageError,
>)
    requires
        before.wf(),
        match outcome {
            Ok(durable) => after.durable_through == later(before.durable_through, durable),
            Err(_) => after.durable_through == before.durable_through,
        },
    ensures
        after.durable_through.0 >= before.durable_through.0,
        forall|required: CommitSeq| #[trigger]
            later(before.durable_through, required) == before.durable_through
                ==> after.durable_through.0 >= required.0,
{
}

/// The result of an operation whose change is made durable afterwards: an
/// error of either stands in for the value.
pub fn settle<T>(result: Result<T, StorageError>, persisted: Result<(), StorageError>) -> (settled:
    Result<T, StorageError>)
    ensures
        persisted matches Err(error) ==> settled == Err::<T, StorageError>(error),
        persisted is Ok ==> settled == result,
{
    match persisted {
        Ok(()) => result,
        Err(error) => Err(error),
    }
}

/// Whether some delta is of a commit.
pub open spec fn has_delta(pending: Seq<BlockDeltaCommit>, seq: int) -> bool {
    exists|i: int| 0 <= i < pending.len() && (#[trigger] pending[i]).commit_seq.0 == seq
}

/// Whether there is a delta of every commit from one to another.
pub open spec fn has_all(pending: Seq<BlockDeltaCommit>, from: int, to: int) -> bool {
    forall|seq: int| from <= seq <= to ==> #[trigger] has_delta(pending, seq)
}

/// Whether places in a list are those of the deltas of consecutive commits.
pub open spec fn picks_run(pending: Seq<BlockDeltaCommit>, picks: Seq<usize>, first: int) -> bool {
    forall|k: int|
        0 <= k < picks.len() ==> (#[trigger] picks[k]) < pending.len()
            && pending[picks[k] as int].commit_seq.0 == first + k
}

fn find_delta(pending: &Vec<BlockDeltaCommit>, seq: u64) -> (found: Option<usize>)
    ensures
        found is Some <==> has_delta(pending@, seq as int),
        found matches Some(i) ==> i < pending@.len() && pending@[i as int].commit_seq.0 == seq,
{
    let mut next: usize = 0;
    while next < pending.len()
        invariant
            next <= pending@.len(),
            forall|i: int| 0 <= i < next ==> (#[trigger] pending@[i]).commit_seq.0 != seq,
        decreases pending@.len() - next,
    {
        if pending[next].commit_seq.0 == seq {
            assert(pending@[next as int].commit_seq.0 == seq);
            return Some(next);
        }
        next = next + 1;
    }
    None
}

/// The deltas of all commits after the durable end up to a target, in their
/// order; `None` if one is missing.
pub fn contiguous_pending_block_deltas(
    pending: &Vec<BlockDeltaCommit>,
    durable_through: CommitSeq,
    target: CommitSeq,
) -> (picked: Option<Vec<usize>>)
    ensures
        picked is Some <==> has_all(pending@, durable_through.0 + 1, target.0 as int),
        picked matches Some(picks) ==> picks_run(pending@, picks@, durable_through.0 + 1)
            && picks@.len() == if durable_through.0 >= target.0 {
            0
        } else {
            target.0 - durable_through.0
        },
{
    let mut picks: Vec<usize> = Vec::new();
    if durable_through.0 >= target.0 {
        return Some(picks);
    }
    let mut seq: u64 = durable_through.0;
    while seq < target.0
        invariant
            durable_through.0 <= seq <= target.0,
            durable_through.0 < target.0,
            picks@.len() == seq - durable_through.0,
            picks_run(pending@, picks@, durable_through.0 + 1),
            has_all(pending@, durable_through.0 + 1, seq as int),
        decreases target.0 - seq,
    {
        seq = seq + 1;
        match find_delta(pending, seq) {
            Some(i) => picks.push(i),
            None => {
                assert(!has_delta(pending@, seq as int));
                return None;
            },
        }
    }
    Some(picks)
}

/// Whether some delta is of a commit from one to another.
pub open spec fn has_some(pending: Seq<BlockDeltaCommit>, from: int, to: int) -> bool {
    exists|i: int| 0 <= i < pending.len() && from <= (#[trigger] pending[i]).commit_seq.0 <= to
}

pub fn has_pending_block_delta_in_range(
    pending: &Vec<BlockDeltaCommit>,
    first_commit: u64,
    target: CommitSeq,
) -> (found: bool)
    ensures
        found == has_some(pending@, first_commit as int, target.0 as int),
{
    let mut next: usize = 0;
    while next < pending.len()
        invariant
            next <= pending@.len(),
            forall|i: int|
                0 <= i < next ==> !(first_commit <= (#[trigger] pending@[i]).commit_seq.0
                    <= target.0),
        decreases pending@.len() - next,
    {
        let seq = pending[next].commit_seq.0;
        if first_commit <= seq && seq <= target.0 {
            assert(first_commit <= pending@[next as int].commit_seq.0 <= target.0);
            return true;
        }
        next = next + 1;
    }
    false
}

/// The deltas right after the durable end whose segments are ready: up to a
/// target, or to the first whose segments are still being written. `None` if
/// nothing is ready, or if a delta is missing before a later one.
pub fn ready_contiguous_pending_block_deltas(
    pending: &Vec<BlockDeltaCommit>,
    busy: &IdMap<()>,
    durable_through: CommitSeq,
    target: CommitSeq,
) -> (picked: Option<Vec<usize>>)
    ensures
        picked matches Some(picks) ==> {
            &&& picks_run(pending@, picks@, durable_through.0 + 1)
            &&& picks@.len() > 0 || durable_through.0 >= target.0
            &&& durable_through.0 + picks@.len() <= target.0 || picks@.len() == 0
            &&& forall|k: int|
                0 <= k < picks@.len() ==> !busy@.contains_key(
                    #[trigger] pending@[picks@[k] as int].commit_seq.0 as u128,
                )
            &&& durable_through.0 + picks@.len() < target.0 ==> {
                let stop = durable_through.0 + picks@.len() + 1;
                if has_delta(pending@, stop) {
                    busy@.contains_key(stop as u128)
                } else {
                    !has_some(pending@, stop, target.0 as int)
                }
            }
        },
        picked is None ==> durable_through.0 < target.0 && exists|stop: int|
            durable_through.0 < stop <= target.0 && #[trigger] has_all(
                pending@,
                durable_through.0 + 1,
                stop - 1,
            ) && if has_delta(pending@, stop) {
                busy@.contains_key(stop as u128) && stop == durable_through.0 + 1
            } else {
                has_some(pending@, stop, target.0 as int) || stop == durable_through.0 + 1
            },
{
    let mut picks: Vec<usize> = Vec::new();
    if durable_through.0 >= target.0 {
        return Some(picks);
    }
    let mut seq: u64 = durable_through.0;
    while seq < target.0
        invariant
            durable_through.0 <= seq <= target.0,
            durable_through.0 < target.0,
            picks@.len() == seq - durable_through.0,
            picks_run(pending@, picks@, durable_through.0 + 1),
            has_all(pending@, durable_through.0 + 1, seq as int),
            forall|k: int|
                0 <= k < picks@.len() ==> !busy@.contains_key(
                    #[trigger] pending@[picks@[k] as int].commit_seq.0 as u128,
                ),
        decreases target.0 - seq,
    {
        let stop: u64 = seq + 1;
        match find_delta(pending, stop) {
            Some(i) => {
                if busy.contains_key(stop as u128) {
                    if picks.len() > 0 {
                        return Some(picks);
                    }
                    assert(has_all(pending@, durable_through.0 + 1, stop as int - 1));
                    return None;
                }
                picks.push(i);
            },
            None => {
                assert(!has_delta(pending@, stop as int));
                let gap = has_pending_block_delta_in_range(pending, stop, target);
                if !gap && picks.len() > 0 {
                    return Some(picks);
                }
                assert(has_all(pending@, durable_through.0 + 1, stop as int - 1));
                return None;
            },
        }
        seq = stop;
    }
    Some(picks)
}

/// Which block deltas have their segments being written, and which failed.
pub struct PrestageState {
    pub in_flight: IdMap<()>,
    pub failed: IdMap<()>,
}

impl PrestageState {
    pub fn new() -> (state: PrestageState)
        ensures
            state.in_flight@ == Map::<u128, ()>::empty(),
            state.failed@ == Map::<u128, ()>::empty(),
    {
        PrestageState { in_flight: IdMap::new(), failed: IdMap::new() }
    }

    pub fn begin(&mut self, commit_seq: CommitSeq)
        ensures
            final(self).in_flight@ == old(self).in_flight@.insert(commit_seq.0 as u128, ()),
            final(self).failed@ == old(self).failed@.remove(commit_seq.0 as u128),
    {
        self.in_flight.insert(commit_seq.0 as u128, ());
        self.failed.remove(commit_seq.0 as u128);
    }

    pub fn finish(&mut self, commit_seq: CommitSeq, succeeded: bool)
        ensures
            final(self).in_flight@ == old(self).in_flight@.remove(commit_seq.0 as u128),
            final(self).failed@ == if succeeded {
                old(self).failed@.remove(commit_seq.0 as u128)
            } else {
                old(self).failed@.insert(commit_seq.0 as u128, ())
            },
    {
        self.in_flight.remove(commit_seq.0 as u128);
        if succeeded {
            self.failed.remove(commit_seq.0 as u128);
        } else {
            self.failed.insert(commit_seq.0 as u128, ());
        }
    }

    /// Forgets failures of commits that are durable.
    pub fn prune_through(&mut self, durable_through: CommitSeq)
        ensures
            final(self).in_flight@ == old(self).in_flight@,
            forall|seq: u128| #[trigger]
                final(self).failed@.contains_key(seq) <==> old(self).failed@.contains_key(seq)
                    && seq > durable_through.0,
    {
        let kept = crate::export_rows::at_least(&self.failed, durable_through.0 as u128 + 1);
        self.failed.retain_keys(&kept);
    }

    /// Whether the segments of any of some deltas are being written.
    pub fn is_busy(&self, pending: &Vec<BlockDeltaCommit>, picks: &Vec<usize>) -> (busy: bool)
        requires
            forall|k: int| 0 <= k < picks@.len() ==> (#[trigger] picks@[k]) < pending@.len(),
        ensures
            busy == exists|k: int|
                0 <= k < picks@.len() && self.in_flight@.contains_key(
                    pending@[#[trigger] picks@[k] as int].commit_seq.0 as u128,
                ),
    {
        let mut next: usize = 0;
        while next < picks.len()
            invariant
                next <= picks@.len(),
                forall|k: int| 0 <= k < picks@.len() ==> (#[trigger] picks@[k]) < pending@.len(),
                forall|k: int|
                    0 <= k < next ==> !self.in_flight@.contains_key(
                        pending@[#[trigger] picks@[k] as int].commit_seq.0 as u128,
                    ),
            decreases picks@.len() - next,
        {
            assert(picks@[next as int] < pending@.len());
            if self.in_flight.contains_key(pending[picks[next]].commit_seq.0 as u128) {
                return true;
            }
            next = next + 1;
        }
        false
    }
}

/// The deltas of commits after the durable end, in their order.
pub open spec fn after_durable(pending: Seq<BlockDeltaCommit>, durable: u64) -> Seq<
    BlockDeltaCommit,
>
    decreases pending.len(),
{
    if pending.len() == 0 {
        pending
    } else {
        let before = after_durable(pending.drop_last(), durable);
        if pending.last().commit_seq.0 > durable {
            before.push(pending.last())
        } else {
            before
        }
    }
}

/// Forgets the deltas of commits that are durable.
pub fn prune_pending_block_deltas_through(
    pending: &mut Vec<BlockDeltaCommit>,
    durable_through: CommitSeq,
)
    ensures
        final(pending)@ == after_durable(old(pending)@, durable_through.0),
{
    let ghost before = pending@;
    let mut kept: Vec<BlockDeltaCommit> = Vec::new();
    let mut rest: Vec<BlockDeltaCommit> = Vec::new();
    core::mem::swap(pending, &mut rest);
    let mut next: usize = 0;
    let count: usize = rest.len();
    assert(before.take(0) =~= Seq::empty());
    assert(before.skip(0) =~= before);
    while next < count
        invariant
            next <= count,
            count == before.len(),
            rest@ == before.skip(next as int),
            kept@ == after_durable(before.take(next as int), durable_through.0),
        decreases count - next,
    {
        let delta = rest.remove(0);
        proof {
            assert(delta == before[next as int]);
            assert(rest@ =~= before.skip(next + 1));
            assert(before.take(next + 1).drop_last() =~= before.take(next as int));
        }
        if delta.commit_seq.0 > durable_through.0 {
            kept.push(delta);
        }
        next = next + 1;
    }
    assert(before.take(next as int) =~= before);
    *pending = kept;
}

/// The deltas that are left are just those of later commits, so that the run
/// up to any later target can still be made durable.
pub proof fn law_pruning_keeps_later_deltas(
    pending: Seq<BlockDeltaCommit>,
    durable: u64,
    from: int,
    to: int,
)
    requires
        from > durable,
    ensures
        has_all(after_durable(pending, durable), from, to) <==> has_all(pending, from, to),
{
    assert forall|seq: int| seq > durable implies #[trigger] has_delta(
        after_durable(pending, durable),
        seq,
    ) == has_delta(pending, seq) by {
        lemma_after_durable(pending, durable, seq);
    }
    if has_all(after_durable(pending, durable), from, to) {
        assert forall|seq: int| from <= seq <= to implies #[trigger] has_delta(pending, seq) by {
            assert(has_delta(after_durable(pending, durable), seq));
        }
    }
    if has_all(pending, from, to) {
        assert forall|seq: int| from <= seq <= to implies #[trigger] has_delta(
            after_durable(pending, durable),
            seq,
        ) by {
            assert(has_delta(pending, seq));
        }
    }
}

/// Pruning keeps each delta of a commit after the durable end, and no other.
pub proof fn law_pruning_forgets_what_is_durable(
    pending: Seq<BlockDeltaCommit>,
    durable: u64,
    delta: BlockDeltaCommit,
)
    ensures
        has_row(after_durable(pending, durable), delta) <==> has_row(pending, delta)
            && delta.commit_seq.0 > durable,
    decreases pending.len(),
{
    let kept = after_durable(pending, durable);
    if pending.len() > 0 {
        let fewer = pending.drop_last();
        let less = after_durable(fewer, durable);
        law_pruning_forgets_what_is_durable(fewer, durable, delta);
        assert(pending[pending.len() - 1] == pending.last());
        if has_row(pending, delta) && delta.commit_seq.0 > durable {
            let i = choose|i: int| 0 <= i < pending.len() && #[trigger] pending[i] == delta;
            if i < fewer.len() {
                assert(fewer[i] == delta);
                let k = choose|k: int| 0 <= k < less.len() && #[trigger] less[k] == delta;
                assert(kept[k] == delta);
            } else {
                assert(kept[kept.len() - 1] == delta);
            }
        }
        if has_row(kept, delta) {
            let k = choose|k: int| 0 <= k < kept.len() && #[trigger] kept[k] == delta;
            if k < less.len() {
                assert(less[k] == delta);
                let i = choose|i: int| 0 <= i < fewer.len() && #[trigger] fewer[i] == delta;
                assert(pending[i] == delta);
            }
        }
    }
}

proof fn lemma_after_durable(pending: Seq<BlockDeltaCommit>, durable: u64, seq: int)
    requires
        seq > durable,
    ensures
        has_delta(after_durable(pending, durable), seq) == has_delta(pending, seq),
    decreases pending.len(),
{
    if pending.len() > 0 {
        let shorter = pending.drop_last();
        lemma_after_durable(shorter, durable, seq);
        let kept = after_durable(pending, durable);
        let less = after_durable(shorter, durable);
        if has_delta(kept, seq) {
            let i = choose|i: int| 0 <= i < kept.len() && (#[trigger] kept[i]).commit_seq.0 == seq;
            if i < less.len() {
                assert(less[i].commit_seq.0 == seq);
                let j = choose|j: int|
                    0 <= j < shorter.len() && (#[trigger] shorter[j]).commit_seq.0 == seq;
                assert(pending[j].commit_seq.0 == seq);
            } else {
                assert(pending[pending.len() - 1].commit_seq.0 == seq);
            }
        }
        if has_delta(pending, seq) {
            let j = choose|j: int|
                0 <= j < pending.len() && (#[trigger] pending[j]).commit_seq.0 == seq;
            if j < shorter.len() {
                assert(shorter[j].commit_seq.0 == seq);
                let i = choose|i: int|
                    0 <= i < less.len() && (#[trigger] less[i]).commit_seq.0 == seq;
                assert(kept[i].commit_seq.0 == seq);
            } else {
                assert(kept[kept.len() - 1].commit_seq.0 == seq);
            }
        }
    }
}

} // verus!
