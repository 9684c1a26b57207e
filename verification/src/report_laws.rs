//! What reports count: every thing that is there once, and sums as far as a number
//! can hold them.
use vstd::prelude::*;

use crate::coordinator::LocalCoordinator;
use crate::data_log::{SegmentPlacementRow, placement_bytes};
use crate::diagnostics::{
    DiagnosticsNode, MaintenanceObservation, NodeGauge, NodeMaintenanceObservation, gauge_sum,
    held_by,
};
use crate::id::{CommitSeq, SegmentId, StorageNodeId};
use crate::idmap::is_walk;
use crate::maintenance::{DurableCompactionReport, bytes_copied_by, bytes_deleted_by};
use crate::metadata_records::AppendStreamRunRecord;
use crate::observability::{
    DiagnosticsCounters, Observability, StorageEventKind, counted, failure_counted, plan_counted,
    ring_push, tick_counted,
};
use crate::segment_records::SegmentLifecycleState;
use crate::storage_nodes::SegmentRecord;
use crate::stream_persist::{StreamPersistPlan, plans_bytes, plans_records, records_bytes};

verus! {

/// The sum of some numbers.
pub open spec fn sum_of(values: Seq<nat>) -> nat {
    values.fold_left(0nat, |sum: nat, value: nat| sum + value)
}

/// The sum of some numbers, or the largest number where they come to more.
pub open spec fn sum_within(values: Seq<nat>, most: nat) -> nat {
    if sum_of(values) > most {
        most
    } else {
        sum_of(values)
    }
}

proof fn lemma_sum_step(values: Seq<nat>)
    requires
        values.len() > 0,
    ensures
        sum_of(values) == sum_of(values.drop_last()) + values.last(),
{
    reveal(Seq::fold_left);
}

proof fn lemma_sum_none(values: Seq<nat>)
    requires
        values.len() == 0,
    ensures
        sum_of(values) == 0,
{
    reveal(Seq::fold_left);
}

/// What a report says of all nodes is the sum of what was seen of each.
pub proof fn law_node_gauges_add_up(nodes: Seq<NodeMaintenanceObservation>)
    ensures
        gauge_sum(nodes, NodeGauge::DirtyBytes) == sum_within(
            nodes.map_values(|node: NodeMaintenanceObservation| node.dirty_bytes as nat),
            u64::MAX as nat,
        ),
        gauge_sum(nodes, NodeGauge::ReclaimableBytes) == sum_within(
            nodes.map_values(|node: NodeMaintenanceObservation| node.reclaimable_bytes as nat),
            u64::MAX as nat,
        ),
        gauge_sum(nodes, NodeGauge::SealedLogs) == sum_within(
            nodes.map_values(
                |node: NodeMaintenanceObservation| (node.sealed_log_count as u64) as nat,
            ),
            u64::MAX as nat,
        ),
    decreases nodes.len(),
{
    let dirty = nodes.map_values(|node: NodeMaintenanceObservation| node.dirty_bytes as nat);
    let free = nodes.map_values(|node: NodeMaintenanceObservation| node.reclaimable_bytes as nat);
    let logs = nodes.map_values(
        |node: NodeMaintenanceObservation| (node.sealed_log_count as u64) as nat,
    );
    if nodes.len() == 0 {
        lemma_sum_none(dirty);
        lemma_sum_none(free);
        lemma_sum_none(logs);
    } else {
        let fewer = nodes.drop_last();
        law_node_gauges_add_up(fewer);
        lemma_sum_step(dirty);
        lemma_sum_step(free);
        lemma_sum_step(logs);
        assert(dirty.drop_last() =~= fewer.map_values(
            |node: NodeMaintenanceObservation| node.dirty_bytes as nat,
        ));
        assert(free.drop_last() =~= fewer.map_values(
            |node: NodeMaintenanceObservation| node.reclaimable_bytes as nat,
        ));
        assert(logs.drop_last() =~= fewer.map_values(
            |node: NodeMaintenanceObservation| (node.sealed_log_count as u64) as nat,
        ));
    }
}

/// The released segments of a report are those of its nodes together.
pub proof fn law_released_segments_add_up(nodes: Seq<DiagnosticsNode>)
    ensures
        LocalCoordinator::released_sum(nodes) == sum_within(
            nodes.map_values(|node: DiagnosticsNode| node.released_segments as nat),
            u64::MAX as nat,
        ),
    decreases nodes.len(),
{
    let released = nodes.map_values(|node: DiagnosticsNode| node.released_segments as nat);
    if nodes.len() == 0 {
        lemma_sum_none(released);
    } else {
        law_released_segments_add_up(nodes.drop_last());
        lemma_sum_step(released);
        assert(released.drop_last() =~= nodes.drop_last().map_values(
            |node: DiagnosticsNode| node.released_segments as nat,
        ));
    }
}

/// The segments that are on a node, all of them or the released.
pub open spec fn segments_on(
    segments: Map<u128, SegmentRecord>,
    storage_node: StorageNodeId,
    released_only: bool,
) -> Set<u128> {
    Set::new(
        |id: u128|
            segments.contains_key(id) && segments[id].storage_node == storage_node && (
            released_only ==> segments[id].entry.state == SegmentLifecycleState::Released),
    )
}

proof fn lemma_held_among(
    segments: Map<u128, SegmentRecord>,
    keys: Seq<u128>,
    storage_node: StorageNodeId,
    released_only: bool,
)
    requires
        forall|i: int, j: int| 0 <= i < j < keys.len() ==> #[trigger] keys[i] < #[trigger] keys[j],
        forall|i: int| 0 <= i < keys.len() ==> segments.contains_key(#[trigger] keys[i]),
    ensures
        segments_on(segments, storage_node, released_only).intersect(keys.to_set()).finite(),
        segments_on(segments, storage_node, released_only).intersect(keys.to_set()).len()
            == held_by(segments, keys, storage_node, released_only),
    decreases keys.len(),
{
    let all = segments_on(segments, storage_node, released_only);
    let among = all.intersect(keys.to_set());
    if keys.len() == 0 {
        assert(among =~= Set::empty());
    } else {
        let fewer = keys.drop_last();
        let last = keys.last();
        assert(keys[keys.len() - 1] == last);
        assert forall|i: int, j: int| 0 <= i < j < fewer.len() implies #[trigger] fewer[i]
            < #[trigger] fewer[j] by {
            assert(keys[i] < keys[j]);
        }
        assert forall|i: int| 0 <= i < fewer.len() implies segments.contains_key(
            #[trigger] fewer[i],
        ) by {
            assert(fewer[i] == keys[i]);
        }
        lemma_held_among(segments, fewer, storage_node, released_only);
        let before = all.intersect(fewer.to_set());
        assert(!fewer.to_set().contains(last)) by {
            if fewer.contains(last) {
                let i = choose|i: int| 0 <= i < fewer.len() && fewer[i] == last;
                assert(keys[i] < keys[keys.len() - 1]);
            }
        }
        assert forall|id: u128| #[trigger] keys.to_set().contains(id) <==> fewer.to_set().contains(
            id,
        ) || id == last by {
            if keys.contains(id) {
                let i = choose|i: int| 0 <= i < keys.len() && keys[i] == id;
                if i < fewer.len() {
                    assert(fewer[i] == id);
                }
            }
            if fewer.contains(id) {
                let i = choose|i: int| 0 <= i < fewer.len() && fewer[i] == id;
                assert(keys[i] == id);
            }
        }
        if all.contains(last) {
            assert(among =~= before.insert(last));
        } else {
            assert(among =~= before);
        }
    }
}

/// A report counts for each node the segments that are on it, and the released
/// ones of them, each once.
pub proof fn law_nodes_report_their_segments(
    store: LocalCoordinator,
    nodes: Seq<DiagnosticsNode>,
    i: int,
)
    requires
        store.nodes_reported(nodes),
        0 <= i < nodes.len(),
        is_walk(store.storage_nodes.segments.keys(), store.segments()),
        store.storage_nodes.segments.keys().len() <= u64::MAX,
    ensures
        nodes.len() == store.storage_nodes.node_ids@.len(),
        nodes[i].storage_node == store.storage_nodes.node_ids@[i],
        segments_on(store.segments(), nodes[i].storage_node, false).finite(),
        nodes[i].segments == segments_on(store.segments(), nodes[i].storage_node, false).len(),
        segments_on(store.segments(), nodes[i].storage_node, true).finite(),
        nodes[i].released_segments == segments_on(
            store.segments(),
            nodes[i].storage_node,
            true,
        ).len(),
{
    let keys = store.storage_nodes.segments.keys();
    let node = store.storage_nodes.node_ids@[i];
    assert(nodes[i].storage_node == node);
    lemma_held_among(store.segments(), keys, node, false);
    lemma_held_among(store.segments(), keys, node, true);
    lemma_no_more_than_keys(store.segments(), keys, node, false);
    lemma_no_more_than_keys(store.segments(), keys, node, true);
    let all = segments_on(store.segments(), node, false);
    let released = segments_on(store.segments(), node, true);
    assert(all.intersect(keys.to_set()) =~= all);
    assert(released.intersect(keys.to_set()) =~= released);
}

proof fn lemma_no_more_than_keys(
    segments: Map<u128, SegmentRecord>,
    keys: Seq<u128>,
    storage_node: StorageNodeId,
    released_only: bool,
)
    ensures
        held_by(segments, keys, storage_node, released_only) <= keys.len(),
    decreases keys.len(),
{
    if keys.len() > 0 {
        lemma_no_more_than_keys(segments, keys.drop_last(), storage_node, released_only);
    }
}

/// The records of a stream are as many bytes as their lengths come to.
pub proof fn law_record_bytes_add_up(records: Seq<AppendStreamRunRecord>)
    ensures
        records_bytes(records) == sum_within(
            records.map_values(|record: AppendStreamRunRecord| record.len as nat),
            u64::MAX as nat,
        ),
    decreases records.len(),
{
    let lens = records.map_values(|record: AppendStreamRunRecord| record.len as nat);
    if records.len() == 0 {
        lemma_sum_none(lens);
    } else {
        law_record_bytes_add_up(records.drop_last());
        lemma_sum_step(lens);
        assert(lens.drop_last() =~= records.drop_last().map_values(
            |record: AppendStreamRunRecord| record.len as nat,
        ));
    }
}

/// Plans to persist streams count the records, and the bytes, of all of them.
pub proof fn law_stream_plans_add_up(plans: Seq<StreamPersistPlan>)
    ensures
        plans_records(plans) == sum_within(
            plans.map_values(|plan: StreamPersistPlan| plan.records@.len()),
            u64::MAX as nat,
        ),
        plans_bytes(plans) == sum_within(
            plans.map_values(
                |plan: StreamPersistPlan|
                    sum_of(
                        plan.records@.map_values(
                            |record: AppendStreamRunRecord| record.len as nat,
                        ),
                    ),
            ),
            u64::MAX as nat,
        ),
    decreases plans.len(),
{
    let lengths = plans.map_values(|plan: StreamPersistPlan| plan.records@.len());
    let bytes = plans.map_values(
        |plan: StreamPersistPlan|
            sum_of(plan.records@.map_values(|record: AppendStreamRunRecord| record.len as nat)),
    );
    if plans.len() == 0 {
        lemma_sum_none(lengths);
        lemma_sum_none(bytes);
    } else {
        let fewer = plans.drop_last();
        law_stream_plans_add_up(fewer);
        law_record_bytes_add_up(plans.last().records@);
        lemma_sum_step(lengths);
        lemma_sum_step(bytes);
        assert(lengths.drop_last() =~= fewer.map_values(
            |plan: StreamPersistPlan| plan.records@.len(),
        ));
        assert(bytes.drop_last() =~= fewer.map_values(
            |plan: StreamPersistPlan|
                sum_of(
                    plan.records@.map_values(|record: AppendStreamRunRecord| record.len as nat),
                ),
        ));
        assert(bytes.last() == sum_of(
            plans.last().records@.map_values(|record: AppendStreamRunRecord| record.len as nat),
        ));
    }
}

/// Compactions have copied and deleted what each of them did.
pub proof fn law_compacted_bytes_add_up(parts: Seq<DurableCompactionReport>)
    ensures
        bytes_copied_by(parts) == sum_of(
            parts.map_values(|part: DurableCompactionReport| part.bytes_copied as nat),
        ),
        bytes_deleted_by(parts) == sum_of(
            parts.map_values(|part: DurableCompactionReport| part.bytes_deleted as nat),
        ),
    decreases parts.len(),
{
    let copied = parts.map_values(|part: DurableCompactionReport| part.bytes_copied as nat);
    let deleted = parts.map_values(|part: DurableCompactionReport| part.bytes_deleted as nat);
    if parts.len() == 0 {
        lemma_sum_none(copied);
        lemma_sum_none(deleted);
    } else {
        let fewer = parts.drop_last();
        law_compacted_bytes_add_up(fewer);
        lemma_sum_step(copied);
        lemma_sum_step(deleted);
        assert(copied.drop_last() =~= fewer.map_values(
            |part: DurableCompactionReport| part.bytes_copied as nat,
        ));
        assert(deleted.drop_last() =~= fewer.map_values(
            |part: DurableCompactionReport| part.bytes_deleted as nat,
        ));
    }
}

/// Placements hold the payload bytes of each of them.
pub proof fn law_placed_bytes_add_up(placements: Seq<SegmentPlacementRow>)
    ensures
        placement_bytes(placements) == sum_within(
            placements.map_values(|placement: SegmentPlacementRow| placement.payload_bytes as nat),
            u64::MAX as nat,
        ),
    decreases placements.len(),
{
    let bytes = placements.map_values(
        |placement: SegmentPlacementRow| placement.payload_bytes as nat,
    );
    if placements.len() == 0 {
        lemma_sum_none(bytes);
    } else {
        law_placed_bytes_add_up(placements.drop_last());
        lemma_sum_step(bytes);
        assert(bytes.drop_last() =~= placements.drop_last().map_values(
            |placement: SegmentPlacementRow| placement.payload_bytes as nat,
        ));
    }
}

/// A ring holds the last items that it was given, as many as it has room for: where
/// it held the end of a series, it holds the end of the longer series afterwards.
pub proof fn law_ring_holds_the_last<T>(series: Seq<T>, items: Seq<T>, capacity: int, item: T)
    requires
        capacity > 0,
        items.len() <= capacity,
        items.len() <= series.len(),
        items.len() == capacity || items.len() == series.len(),
        items == series.skip(series.len() - items.len()),
    ensures
        ring_push(items, capacity, item).len() == if series.len() + 1 < capacity {
            series.len() as int + 1
        } else {
            capacity
        },
        ring_push(items, capacity, item) == series.push(item).skip(
            series.len() + 1 - ring_push(items, capacity, item).len(),
        ),
{
    let after = ring_push(items, capacity, item);
    assert(after =~= series.push(item).skip(series.len() + 1 - after.len()));
}

/// One event moves each counter by one that speaks of events of its kind, and no
/// other.
pub proof fn law_events_are_counted_once(counters: DiagnosticsCounters, kind: StorageEventKind)
    requires
        counters.coordinator_write_attempts < u64::MAX,
        counters.coordinator_write_unavailable < u64::MAX,
        counters.coordinator_write_publish_successes < u64::MAX,
        counters.coordinator_write_publish_failures < u64::MAX,
        counters.grants_issued < u64::MAX,
        counters.grant_rejections < u64::MAX,
        counters.receipts_verified < u64::MAX,
        counters.receipt_rejections < u64::MAX,
        counters.metadata_custodian_runs < u64::MAX,
        counters.storage_node_custodian_runs < u64::MAX,
    ensures
        ({
            let after = counted(counters, kind);
            &&& after.coordinator_write_attempts - counters.coordinator_write_attempts == once(
                kind == StorageEventKind::CoordinatorWriteStarted || kind
                    == StorageEventKind::CoordinatorWriteUnavailable,
            )
            &&& after.coordinator_write_unavailable - counters.coordinator_write_unavailable
                == once(kind == StorageEventKind::CoordinatorWriteUnavailable)
            &&& after.coordinator_write_publish_successes
                - counters.coordinator_write_publish_successes == once(
                kind == StorageEventKind::MetadataPublishSucceeded,
            )
            &&& after.coordinator_write_publish_failures
                - counters.coordinator_write_publish_failures == once(
                kind == StorageEventKind::MetadataPublishFailed,
            )
            &&& after.grants_issued - counters.grants_issued == once(
                kind == StorageEventKind::GrantIssued,
            )
            &&& after.grant_rejections - counters.grant_rejections == once(
                kind == StorageEventKind::GrantRejected,
            )
            &&& after.receipts_verified - counters.receipts_verified == once(
                kind == StorageEventKind::ReceiptVerified,
            )
            &&& after.receipt_rejections - counters.receipt_rejections == once(
                kind == StorageEventKind::ReceiptRejected,
            )
            &&& after.metadata_custodian_runs - counters.metadata_custodian_runs == once(
                kind == StorageEventKind::MetadataCustodianRan,
            )
            &&& after.storage_node_custodian_runs - counters.storage_node_custodian_runs == once(
                kind == StorageEventKind::StorageNodeCustodianRan,
            )
            &&& after.metadata_stale_fences == counters.metadata_stale_fences
        }),
{
}

/// The last event that is kept is the one that came last, under the number after the
/// one before it.
pub proof fn law_last_event_is_the_one_recorded(
    before: Observability,
    after: Observability,
    kind: StorageEventKind,
    storage_node: Option<StorageNodeId>,
    segment_id: Option<SegmentId>,
    commit_seq: Option<CommitSeq>,
    reason: Option<&'static str>,
)
    requires
        before.wf(),
        before.last_sequence < u64::MAX,
        after.event_kept(&before, kind, storage_node, segment_id, commit_seq, reason),
    ensures
        after.events.items@.len() > 0,
        after.events.items@.last().kind == kind,
        after.events.items@.last().storage_node == storage_node,
        after.events.items@.last().segment_id == segment_id,
        after.events.items@.last().commit_seq == commit_seq,
        after.events.items@.last().reason == reason,
        after.events.items@.last().sequence == before.last_sequence + 1,
        after.last_sequence == before.last_sequence + 1,
{
}

/// A publish that failed is counted once as failed and, where it came too late, once
/// as that; plans and ticks of maintenance are counted with what they did.
pub proof fn law_failures_and_maintenance_are_counted(
    counters: DiagnosticsCounters,
    late: bool,
    first: u64,
    second: u64,
)
    requires
        counters.coordinator_write_publish_failures < u64::MAX,
        counters.metadata_stale_fences < u64::MAX,
        counters.maintenance_plans < u64::MAX,
        counters.maintenance_ticks < u64::MAX,
        counters.maintenance_logs_selected + first <= u64::MAX,
        counters.maintenance_logs_skipped + second <= u64::MAX,
        counters.maintenance_bytes_copied + first <= u64::MAX,
        counters.maintenance_bytes_deleted + second <= u64::MAX,
    ensures
        ({
            let after = failure_counted(counters, late);
            &&& after.coordinator_write_publish_failures
                - counters.coordinator_write_publish_failures == 1
            &&& after.metadata_stale_fences - counters.metadata_stale_fences == once(late)
            &&& after.coordinator_write_attempts == counters.coordinator_write_attempts
            &&& after.coordinator_write_publish_successes
                == counters.coordinator_write_publish_successes
        }),
        ({
            let after = plan_counted(counters, first, second);
            &&& after.maintenance_plans - counters.maintenance_plans == 1
            &&& after.maintenance_logs_selected - counters.maintenance_logs_selected == first
            &&& after.maintenance_logs_skipped - counters.maintenance_logs_skipped == second
            &&& after.maintenance_ticks == counters.maintenance_ticks
        }),
        ({
            let after = tick_counted(counters, first, second);
            &&& after.maintenance_ticks - counters.maintenance_ticks == 1
            &&& after.maintenance_bytes_copied - counters.maintenance_bytes_copied == first
            &&& after.maintenance_bytes_deleted - counters.maintenance_bytes_deleted == second
            &&& after.maintenance_plans == counters.maintenance_plans
        }),
{
}

pub open spec fn once(happened: bool) -> int {
    if happened {
        1
    } else {
        0
    }
}

/// The number of things that a report gives is how many of them the store has.
pub proof fn law_gauges_count_what_is_there(
    store: LocalCoordinator,
    nodes: Seq<DiagnosticsNode>,
    maintenance: Option<&MaintenanceObservation>,
)
    requires
        is_walk(store.metadata.device_heads.keys(), store.metadata.device_heads@),
        is_walk(store.metadata.deleted_device_heads.keys(), store.metadata.deleted_device_heads@),
        is_walk(store.metadata.keyspace_heads.keys(), store.metadata.keyspace_heads@),
        is_walk(store.metadata.trees.nodes.keys(), store.metadata.trees.nodes@),
        is_walk(store.metadata.checkpoints.keys(), store.metadata.checkpoints@),
        store.metadata.device_heads.keys().len() <= u64::MAX,
        store.metadata.deleted_device_heads.keys().len() <= u64::MAX,
        store.metadata.keyspace_heads.keys().len() <= u64::MAX,
        store.metadata.trees.nodes.keys().len() <= u64::MAX,
        store.metadata.checkpoints.keys().len() <= u64::MAX,
    ensures
        ({
            let gauges = store.gauges(nodes, maintenance);
            &&& gauges.live_device_heads == store.metadata.device_heads@.dom().len()
            &&& gauges.deleted_device_heads == store.metadata.deleted_device_heads@.dom().len()
            &&& gauges.live_keyspace_heads == store.metadata.keyspace_heads@.dom().len()
            &&& gauges.metadata_nodes == store.metadata.trees.nodes@.dom().len()
            &&& gauges.checkpoint_count == store.metadata.checkpoints@.dom().len()
            &&& store.metadata.next_commit_seq > 0 ==> gauges.commit_seq + 1
                == store.metadata.next_commit_seq
            &&& store.metadata.next_gc_epoch > 0 ==> gauges.gc_epoch + 1
                == store.metadata.next_gc_epoch
        }),
{
    lemma_walk_counts(store.metadata.device_heads.keys(), store.metadata.device_heads@);
    lemma_walk_counts(
        store.metadata.deleted_device_heads.keys(),
        store.metadata.deleted_device_heads@,
    );
    lemma_walk_counts(store.metadata.keyspace_heads.keys(), store.metadata.keyspace_heads@);
    lemma_walk_counts(store.metadata.trees.nodes.keys(), store.metadata.trees.nodes@);
    lemma_walk_counts(store.metadata.checkpoints.keys(), store.metadata.checkpoints@);
}

proof fn lemma_walk_counts<V>(keys: Seq<u128>, map: Map<u128, V>)
    requires
        is_walk(keys, map),
    ensures
        map.dom().finite(),
        map.dom().len() == keys.len(),
{
    assert(keys.no_duplicates()) by {
        assert forall|i: int, j: int|
            0 <= i < keys.len() && 0 <= j < keys.len() && i != j implies keys[i] != keys[j] by {
            if i < j {
                assert(keys[i] < keys[j]);
            } else {
                assert(keys[j] < keys[i]);
            }
        }
    }
    keys.unique_seq_to_set();
    assert(map.dom() =~= keys.to_set());
}

} // verus!
