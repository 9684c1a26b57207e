//! Making records of append streams durable, several streams at a time.
use vstd::prelude::*;

use crate::data_log::{
    DataLogState, DurableDataLogRef, PendingDataLogAppend, PendingDataLogManifest, holds_ref,
    lemma_pushed_ref, manifest_of, manifests_in, merged_manifest, refs_in,
};
use crate::idmap::IdMap;
use crate::metadata_records::AppendStreamRunRecord;
use crate::native_api::AppendStream;

verus! {

/// The records of one stream that a run makes durable.
pub struct StreamPersistPlan {
    pub stream: AppendStream,
    pub records: Vec<AppendStreamRunRecord>,
    pub durable_through: u64,
}

/// The log that holds a record.
pub open spec fn record_log(record: AppendStreamRunRecord) -> DurableDataLogRef {
    DurableDataLogRef { storage_node: record.run.storage_node, log_id: record.run.log_id }
}

impl StreamPersistPlan {
    /// Whether some record of the plan is in a log.
    pub open spec fn uses(&self, log: DurableDataLogRef) -> bool {
        exists|i: int| 0 <= i < self.records@.len() && record_log(#[trigger] self.records@[i]) == log
    }

    /// The logs that hold the records, each once.
    pub fn log_refs(&self) -> (refs: Vec<DurableDataLogRef>)
        ensures
            forall|log: DurableDataLogRef| #[trigger] refs@.contains(log) <==> self.uses(log),
            refs@.no_duplicates(),
    {
        let mut refs: Vec<DurableDataLogRef> = Vec::new();
        let mut next: usize = 0;
        while next < self.records.len()
            invariant
                next <= self.records@.len(),
                refs@.no_duplicates(),
                forall|log: DurableDataLogRef| #[trigger]
                    refs@.contains(log) <==> exists|i: int|
                        0 <= i < next && record_log(#[trigger] self.records@[i]) == log,
            decreases self.records@.len() - next,
        {
            let record = self.records[next];
            let log = DurableDataLogRef {
                storage_node: record.run.storage_node,
                log_id: record.run.log_id,
            };
            let ghost before = refs@;
            if !holds_ref(&refs, log) {
                refs.push(log);
            }
            proof {
                assert forall|other: DurableDataLogRef| #[trigger]
                    refs@.contains(other) <==> exists|i: int|
                        0 <= i < next + 1 && record_log(#[trigger] self.records@[i]) == other by {
                    lemma_pushed_ref(before, log, other);
                    if exists|i: int|
                        0 <= i < next + 1 && record_log(#[trigger] self.records@[i]) == other {
                        let i = choose|i: int|
                            0 <= i < next + 1 && record_log(#[trigger] self.records@[i]) == other;
                        if i < next {
                            assert(before.contains(other));
                        }
                    }
                    if other == log {
                        assert(record_log(self.records@[next as int]) == other);
                    }
                }
            }
            next = next + 1;
        }
        refs
    }
}

/// How much a run makes durable.
#[derive(Clone, Copy, Debug, PartialEq, Eq, Structural)]
pub struct StreamBatchTotals {
    pub plans: u64,
    pub records: u64,
    pub payload_bytes: u64,
}

pub open spec fn capped(sum: int) -> u64 {
    if sum > u64::MAX {
        u64::MAX
    } else {
        sum as u64
    }
}

/// The bytes of some records, as far as they can be counted.
pub open spec fn records_bytes(records: Seq<AppendStreamRunRecord>) -> u64
    decreases records.len(),
{
    if records.len() == 0 {
        0
    } else {
        capped(records_bytes(records.drop_last()) + records.last().len)
    }
}

pub open spec fn plans_records(plans: Seq<StreamPersistPlan>) -> u64
    decreases plans.len(),
{
    if plans.len() == 0 {
        0
    } else {
        capped(plans_records(plans.drop_last()) + plans.last().records@.len())
    }
}

pub open spec fn plans_bytes(plans: Seq<StreamPersistPlan>) -> u64
    decreases plans.len(),
{
    if plans.len() == 0 {
        0
    } else {
        capped(plans_bytes(plans.drop_last()) + records_bytes(plans.last().records@))
    }
}

fn sum_records(records: &Vec<AppendStreamRunRecord>) -> (bytes: u64)
    ensures
        bytes == records_bytes(records@),
{
    let mut bytes: u64 = 0;
    let mut next: usize = 0;
    assert(records@.take(0) =~= Seq::empty());
    while next < records.len()
        invariant
            next <= records@.len(),
            bytes == records_bytes(records@.take(next as int)),
        decreases records@.len() - next,
    {
        assert(records@.take(next + 1).drop_last() =~= records@.take(next as int));
        bytes = bytes.saturating_add(records[next].len);
        next = next + 1;
    }
    assert(records@.take(next as int) =~= records@);
    bytes
}

/// How much some plans make durable.
pub fn stream_batch_totals(plans: &Vec<StreamPersistPlan>) -> (totals: StreamBatchTotals)
    ensures
        totals == (StreamBatchTotals {
            plans: plans@.len() as u64,
            records: plans_records(plans@),
            payload_bytes: plans_bytes(plans@),
        }),
{
    let mut records: u64 = 0;
    let mut payload_bytes: u64 = 0;
    let mut next: usize = 0;
    assert(plans@.take(0) =~= Seq::empty());
    while next < plans.len()
        invariant
            next <= plans@.len(),
            records == plans_records(plans@.take(next as int)),
            payload_bytes == plans_bytes(plans@.take(next as int)),
        decreases plans@.len() - next,
    {
        assert(plans@.take(next + 1).drop_last() =~= plans@.take(next as int));
        let plan = &plans[next];
        records = records.saturating_add(plan.records.len() as u64);
        payload_bytes = payload_bytes.saturating_add(sum_records(&plan.records));
        next = next + 1;
    }
    assert(plans@.take(next as int) =~= plans@);
    StreamBatchTotals { plans: plans.len() as u64, records, payload_bytes }
}

/// What the lane of a plan's stream knows of a log that the plan uses.
pub open spec fn lane_manifest(
    plan: StreamPersistPlan,
    lanes: Map<u128, PendingDataLogAppend>,
    log: DurableDataLogRef,
) -> Option<PendingDataLogManifest> {
    if plan.uses(log) && lanes.contains_key(plan.stream.stream_id.0) {
        manifest_of(lanes[plan.stream.stream_id.0].logs@, log)
    } else {
        None
    }
}

/// What the lanes of some plans together know of a log.
pub open spec fn gathered_manifest(
    plans: Seq<StreamPersistPlan>,
    lanes: Map<u128, PendingDataLogAppend>,
    log: DurableDataLogRef,
) -> Option<PendingDataLogManifest>
    decreases plans.len(),
{
    if plans.len() == 0 {
        None
    } else {
        merged_manifest(
            gathered_manifest(plans.drop_last(), lanes, log),
            lane_manifest(plans.last(), lanes, log),
        )
    }
}

/// Whether the lane of some plan has a log sealed that the plan uses.
pub open spec fn gathered_sealed(
    plans: Seq<StreamPersistPlan>,
    lanes: Map<u128, PendingDataLogAppend>,
    log: DurableDataLogRef,
) -> bool {
    exists|i: int|
        0 <= i < plans.len() && (#[trigger] plans[i]).uses(log) && lanes.contains_key(
            plans[i].stream.stream_id.0,
        ) && lanes[plans[i].stream.stream_id.0].sealed_logs@.contains(log)
}

pub open spec fn lanes_wf(lanes: Map<u128, PendingDataLogAppend>) -> bool {
    forall|id: u128| #[trigger] lanes.contains_key(id) ==> lanes[id].wf()
}

proof fn lemma_selected_manifest(
    logs: Seq<PendingDataLogManifest>,
    refs: Seq<DurableDataLogRef>,
    log: DurableDataLogRef,
)
    ensures
        manifest_of(manifests_in(logs, refs, true), log) == if refs.contains(log) {
            manifest_of(logs, log)
        } else {
            None
        },
    decreases logs.len(),
{
    if logs.len() > 0 {
        lemma_selected_manifest(logs.drop_last(), refs, log);
        let before = manifests_in(logs.drop_last(), refs, true);
        assert(before.push(logs.last()).drop_last() =~= before);
    }
}

proof fn lemma_selected_refs(
    logs: Seq<DurableDataLogRef>,
    refs: Seq<DurableDataLogRef>,
    log: DurableDataLogRef,
)
    ensures
        refs_in(logs, refs, true).contains(log) <==> logs.contains(log) && refs.contains(log),
    decreases logs.len(),
{
    if logs.len() > 0 {
        let shorter = logs.drop_last();
        lemma_selected_refs(shorter, refs, log);
        lemma_pushed_ref(refs_in(shorter, refs, true), logs.last(), log);
        lemma_pushed_ref(shorter, logs.last(), log);
        assert(shorter.push(logs.last()) =~= logs);
    }
}

/// What the streams' lanes hold of the logs that some plans use.
pub fn gather_stream_append(
    plans: &Vec<StreamPersistPlan>,
    lanes: &IdMap<PendingDataLogAppend>,
) -> (append: PendingDataLogAppend)
    requires
        lanes_wf(lanes@),
    ensures
        append.wf(),
        append.placements@.len() == 0,
        forall|log: DurableDataLogRef| #[trigger]
            manifest_of(append.logs@, log) == gathered_manifest(plans@, lanes@, log),
        forall|log: DurableDataLogRef| #[trigger]
            append.sealed_logs@.contains(log) <==> gathered_sealed(plans@, lanes@, log),
{
    let mut append = PendingDataLogAppend::new();
    let mut next: usize = 0;
    assert(plans@.take(0) =~= Seq::empty());
    while next < plans.len()
        invariant
            next <= plans@.len(),
            lanes_wf(lanes@),
            append.wf(),
            append.placements@.len() == 0,
            forall|log: DurableDataLogRef| #[trigger]
                manifest_of(append.logs@, log) == gathered_manifest(
                    plans@.take(next as int),
                    lanes@,
                    log,
                ),
            forall|log: DurableDataLogRef| #[trigger]
                append.sealed_logs@.contains(log) <==> gathered_sealed(
                    plans@.take(next as int),
                    lanes@,
                    log,
                ),
        decreases plans@.len() - next,
    {
        let plan = &plans[next];
        let ghost before = append;
        let refs = plan.log_refs();
        let mut part = PendingDataLogAppend::new();
        if let Some(lane) = lanes.get(plan.stream.stream_id.raw()) {
            part = lane.selected_log_refs(&refs);
        }
        let ghost chosen = part;
        append.merge(part);
        proof {
            let shorter = plans@.take(next as int);
            let longer = plans@.take(next + 1);
            assert(longer.drop_last() =~= shorter);
            assert(longer.last() == *plan);
            assert forall|log: DurableDataLogRef| #[trigger]
                manifest_of(append.logs@, log) == gathered_manifest(longer, lanes@, log) by {
                assert(refs@.contains(log) <==> plan.uses(log));
                if lanes@.contains_key(plan.stream.stream_id.0) {
                    lemma_selected_manifest(
                        lanes@[plan.stream.stream_id.0].logs@,
                        refs@,
                        log,
                    );
                }
                assert(manifest_of(chosen.logs@, log) == lane_manifest(*plan, lanes@, log));
                assert(manifest_of(before.logs@, log) == gathered_manifest(shorter, lanes@, log));
            }
            assert forall|log: DurableDataLogRef| #[trigger]
                append.sealed_logs@.contains(log) <==> gathered_sealed(longer, lanes@, log) by {
                assert(refs@.contains(log) <==> plan.uses(log));
                assert(before.sealed_logs@.contains(log) <==> gathered_sealed(
                    shorter,
                    lanes@,
                    log,
                ));
                if lanes@.contains_key(plan.stream.stream_id.0) {
                    lemma_selected_refs(
                        lanes@[plan.stream.stream_id.0].sealed_logs@,
                        refs@,
                        log,
                    );
                }
                if gathered_sealed(shorter, lanes@, log) {
                    let i = choose|i: int|
                        0 <= i < shorter.len() && (#[trigger] shorter[i]).uses(log)
                            && lanes@.contains_key(shorter[i].stream.stream_id.0)
                            && lanes@[shorter[i].stream.stream_id.0].sealed_logs@.contains(log);
                    assert(longer[i] == shorter[i]);
                }
                if chosen.sealed_logs@.contains(log) {
                    assert(longer[next as int].uses(log));
                }
                if gathered_sealed(longer, lanes@, log) {
                    let i = choose|i: int|
                        0 <= i < longer.len() && (#[trigger] longer[i]).uses(log)
                            && lanes@.contains_key(longer[i].stream.stream_id.0)
                            && lanes@[longer[i].stream.stream_id.0].sealed_logs@.contains(log);
                    if i < next {
                        assert(shorter[i] == longer[i]);
                    }
                }
            }
        }
        next = next + 1;
    }
    assert(plans@.take(next as int) =~= plans@);
    append
}

/// Whether some plan uses a log.
pub open spec fn plans_use(plans: Seq<StreamPersistPlan>, log: DurableDataLogRef) -> bool {
    exists|i: int| 0 <= i < plans.len() && (#[trigger] plans[i]).uses(log)
}

/// The logs that some plans use and that an append knows nothing of.
pub fn missing_log_refs(plans: &Vec<StreamPersistPlan>, append: &PendingDataLogAppend) -> (missing:
    Vec<DurableDataLogRef>)
    ensures
        missing@.no_duplicates(),
        forall|log: DurableDataLogRef| #[trigger]
            missing@.contains(log) <==> plans_use(plans@, log) && !append.touches(log),
{
    let known = append.log_refs();
    let mut missing: Vec<DurableDataLogRef> = Vec::new();
    let mut next: usize = 0;
    while next < plans.len()
        invariant
            next <= plans@.len(),
            missing@.no_duplicates(),
            forall|log: DurableDataLogRef| #[trigger] known@.contains(log) <==> append.touches(log),
            forall|log: DurableDataLogRef| #[trigger]
                missing@.contains(log) <==> plans_use(plans@.take(next as int), log)
                    && !append.touches(log),
        decreases plans@.len() - next,
    {
        let plan = &plans[next];
        let refs = plan.log_refs();
        let ghost before = missing@;
        let mut at: usize = 0;
        while at < refs.len()
            invariant
                at <= refs@.len(),
                missing@.no_duplicates(),
                forall|log: DurableDataLogRef| #[trigger]
                    known@.contains(log) <==> append.touches(log),
                forall|log: DurableDataLogRef| #[trigger]
                    missing@.contains(log) <==> before.contains(log) || refs@.take(
                        at as int,
                    ).contains(log) && !append.touches(log),
            decreases refs@.len() - at,
        {
            let log = refs[at];
            let ghost then = missing@;
            if !holds_ref(&known, log) && !holds_ref(&missing, log) {
                missing.push(log);
            }
            proof {
                assert(refs@.take(at + 1) =~= refs@.take(at as int).push(log));
                assert(known@.contains(log) <==> append.touches(log));
                assert forall|other: DurableDataLogRef| #[trigger]
                    missing@.contains(other) <==> before.contains(other) || refs@.take(
                        at + 1,
                    ).contains(other) && !append.touches(other) by {
                    lemma_pushed_ref(refs@.take(at as int), log, other);
                    lemma_pushed_ref(then, log, other);
                    assert(then.contains(other) <==> before.contains(other) || refs@.take(
                        at as int,
                    ).contains(other) && !append.touches(other));
                }
            }
            at = at + 1;
        }
        proof {
            assert(refs@.take(at as int) =~= refs@);
            let shorter = plans@.take(next as int);
            let longer = plans@.take(next + 1);
            assert forall|log: DurableDataLogRef| #[trigger]
                missing@.contains(log) <==> plans_use(longer, log) && !append.touches(log) by {
                assert(refs@.contains(log) <==> plan.uses(log));
                assert(before.contains(log) <==> plans_use(shorter, log) && !append.touches(log));
                if plans_use(shorter, log) {
                    let i = choose|i: int|
                        0 <= i < shorter.len() && (#[trigger] shorter[i]).uses(log);
                    assert(longer[i] == shorter[i]);
                }
                if plan.uses(log) {
                    assert(longer[next as int].uses(log));
                }
                if plans_use(longer, log) {
                    let i = choose|i: int|
                        0 <= i < longer.len() && (#[trigger] longer[i]).uses(log);
                    if i < next {
                        assert(shorter[i] == longer[i]);
                    }
                }
            }
        }
        next = next + 1;
    }
    assert(plans@.take(next as int) =~= plans@);
    missing
}

/// What is written down of a log that no lane knows of: it has the length of
/// its file.
pub fn unlisted_log(log: DurableDataLogRef, file_bytes: u64) -> (manifest: PendingDataLogManifest)
    ensures
        manifest == (PendingDataLogManifest {
            storage_node: log.storage_node,
            log_id: log.log_id,
            state: DataLogState::StreamActive,
            total_bytes: file_bytes,
            needs_dir_sync: false,
        }),
{
    PendingDataLogManifest {
        storage_node: log.storage_node,
        log_id: log.log_id,
        state: DataLogState::StreamActive,
        total_bytes: file_bytes,
        needs_dir_sync: false,
    }
}

/// The lane of a stream after the records of a plan became durable.
pub fn settle_lane(lane: &mut PendingDataLogAppend, plan: &StreamPersistPlan)
    requires
        old(lane).wf(),
    ensures
        final(lane).wf(),
        final(lane).placements == old(lane).placements,
        forall|log: DurableDataLogRef| #[trigger]
            manifest_of(final(lane).logs@, log) == if plan.uses(log) {
                None
            } else {
                manifest_of(old(lane).logs@, log)
            },
{
    let refs = plan.log_refs();
    let ghost before = lane.logs@;
    lane.remove_log_refs(&refs);
    proof {
        assert forall|log: DurableDataLogRef| #[trigger]
            manifest_of(lane.logs@, log) == if plan.uses(log) {
                None
            } else {
                manifest_of(before, log)
            } by {
            assert(refs@.contains(log) <==> plan.uses(log));
            lemma_rest_manifest(before, refs@, log);
        }
    }
}

proof fn lemma_rest_manifest(
    logs: Seq<PendingDataLogManifest>,
    refs: Seq<DurableDataLogRef>,
    log: DurableDataLogRef,
)
    ensures
        manifest_of(manifests_in(logs, refs, false), log) == if refs.contains(log) {
            None
        } else {
            manifest_of(logs, log)
        },
    decreases logs.len(),
{
    if logs.len() > 0 {
        lemma_rest_manifest(logs.drop_last(), refs, log);
        let before = manifests_in(logs.drop_last(), refs, false);
        assert(before.push(logs.last()).drop_last() =~= before);
    }
}

} // verus!
