//! What is kept of data that waits for its catalog: every placement, log and seal
//! that is asked for, and no others.
use vstd::prelude::*;

use crate::data_log::{
    DurableDataLogRef, PendingDataLogAppend, PendingDataLogManifest, SegmentPlacementRow,
    manifest_of, manifests_in, merged_manifest, placements_in, refs_in,
};
use crate::export_laws::has_row;
use crate::maintenance::{
    AdmissionStep, MaintenanceMode, MaintenancePolicy, MaintenanceTickPlan, WriteAdmission,
    admission_step,
};
use crate::stream_persist::{StreamPersistPlan, gathered_manifest, lane_manifest};

verus! {

/// A placement is kept if, and only if, its segment is among those asked for, or is not
/// where the others are asked for.
pub proof fn law_placements_are_parted_by_segment(
    rows: Seq<SegmentPlacementRow>,
    segments: Map<u128, ()>,
    wanted: bool,
    row: SegmentPlacementRow,
)
    ensures
        has_row(placements_in(rows, segments, wanted), row) <==> has_row(rows, row) && (segments.contains_key(row.segment_id.0)
            == wanted),
    decreases rows.len(),
{
    let kept = placements_in(rows, segments, wanted);
    if rows.len() > 0 {
        let fewer = rows.drop_last();
        let less = placements_in(fewer, segments, wanted);
        law_placements_are_parted_by_segment(fewer, segments, wanted, row);
        assert(rows[rows.len() - 1] == rows.last());
        if has_row(rows, row) && segments.contains_key(row.segment_id.0) == wanted {
            let i = choose|i: int| 0 <= i < rows.len() && #[trigger] rows[i] == row;
            if i < fewer.len() {
                assert(fewer[i] == row);
                let k = choose|k: int| 0 <= k < less.len() && #[trigger] less[k] == row;
                assert(kept[k] == row);
            } else {
                assert(kept[kept.len() - 1] == row);
            }
        }
        if has_row(kept, row) {
            let k = choose|k: int| 0 <= k < kept.len() && #[trigger] kept[k] == row;
            if k < less.len() {
                assert(less[k] == row);
                let i = choose|i: int| 0 <= i < fewer.len() && #[trigger] fewer[i] == row;
                assert(rows[i] == row);
            }
        }
    }
}

/// What is known of a log is kept if, and only if, the log is among those asked for, or
/// is not where the others are asked for.
pub proof fn law_manifests_are_parted_by_log(
    rows: Seq<PendingDataLogManifest>,
    refs: Seq<DurableDataLogRef>,
    wanted: bool,
    row: PendingDataLogManifest,
)
    ensures
        has_row(manifests_in(rows, refs, wanted), row) <==> has_row(rows, row) && (refs.contains(
            (DurableDataLogRef { storage_node: row.storage_node, log_id: row.log_id }),
        )
            == wanted),
    decreases rows.len(),
{
    let kept = manifests_in(rows, refs, wanted);
    if rows.len() > 0 {
        let fewer = rows.drop_last();
        let less = manifests_in(fewer, refs, wanted);
        law_manifests_are_parted_by_log(fewer, refs, wanted, row);
        assert(rows[rows.len() - 1] == rows.last());
        if has_row(rows, row) && refs.contains(
            (DurableDataLogRef { storage_node: row.storage_node, log_id: row.log_id }),
        ) == wanted {
            let i = choose|i: int| 0 <= i < rows.len() && #[trigger] rows[i] == row;
            if i < fewer.len() {
                assert(fewer[i] == row);
                let k = choose|k: int| 0 <= k < less.len() && #[trigger] less[k] == row;
                assert(kept[k] == row);
            } else {
                assert(kept[kept.len() - 1] == row);
            }
        }
        if has_row(kept, row) {
            let k = choose|k: int| 0 <= k < kept.len() && #[trigger] kept[k] == row;
            if k < less.len() {
                assert(less[k] == row);
                let i = choose|i: int| 0 <= i < fewer.len() && #[trigger] fewer[i] == row;
                assert(rows[i] == row);
            }
        }
    }
}

/// A log is kept if, and only if, it is among those asked for, or is not where the
/// others are asked for.
pub proof fn law_logs_are_parted(
    rows: Seq<DurableDataLogRef>,
    refs: Seq<DurableDataLogRef>,
    wanted: bool,
    row: DurableDataLogRef,
)
    ensures
        has_row(refs_in(rows, refs, wanted), row) <==> has_row(rows, row) && (refs.contains(row)
            == wanted),
    decreases rows.len(),
{
    let kept = refs_in(rows, refs, wanted);
    if rows.len() > 0 {
        let fewer = rows.drop_last();
        let less = refs_in(fewer, refs, wanted);
        law_logs_are_parted(fewer, refs, wanted, row);
        assert(rows[rows.len() - 1] == rows.last());
        if has_row(rows, row) && refs.contains(row) == wanted {
            let i = choose|i: int| 0 <= i < rows.len() && #[trigger] rows[i] == row;
            if i < fewer.len() {
                assert(fewer[i] == row);
                let k = choose|k: int| 0 <= k < less.len() && #[trigger] less[k] == row;
                assert(kept[k] == row);
            } else {
                assert(kept[kept.len() - 1] == row);
            }
        }
        if has_row(kept, row) {
            let k = choose|k: int| 0 <= k < kept.len() && #[trigger] kept[k] == row;
            if k < less.len() {
                assert(less[k] == row);
                let i = choose|i: int| 0 <= i < fewer.len() && #[trigger] fewer[i] == row;
                assert(rows[i] == row);
            }
        }
    }
}

/// What a list knows of a log is the one entry that it has for the log.
pub proof fn law_manifest_is_that_of_its_log(
    logs: Seq<PendingDataLogManifest>,
    log: DurableDataLogRef,
    manifest: PendingDataLogManifest,
)
    requires
        forall|i: int, j: int|
            0 <= i < j < logs.len() ==> (#[trigger] logs[i]).storage_node != (
            #[trigger] logs[j]).storage_node || logs[i].log_id != logs[j].log_id,
    ensures
        manifest_of(logs, log) == Some(manifest) <==> has_row(logs, manifest)
            && manifest.storage_node == log.storage_node && manifest.log_id == log.log_id,
    decreases logs.len(),
{
    if logs.len() > 0 {
        let fewer = logs.drop_last();
        let last = logs.last();
        assert(logs[logs.len() - 1] == last);
        assert forall|i: int, j: int| 0 <= i < j < fewer.len() implies (
        #[trigger] fewer[i]).storage_node != (#[trigger] fewer[j]).storage_node || fewer[i].log_id
            != fewer[j].log_id by {
            assert(logs[i].storage_node != logs[j].storage_node || logs[i].log_id
                != logs[j].log_id);
        }
        law_manifest_is_that_of_its_log(fewer, log, manifest);
        if has_row(fewer, manifest) {
            let i = choose|i: int| 0 <= i < fewer.len() && #[trigger] fewer[i] == manifest;
            assert(logs[i] == manifest);
            assert(logs[i].storage_node != logs[logs.len() - 1].storage_node || logs[i].log_id
                != logs[logs.len() - 1].log_id);
        }
        if has_row(logs, manifest) {
            let i = choose|i: int| 0 <= i < logs.len() && #[trigger] logs[i] == manifest;
            if i < fewer.len() {
                assert(fewer[i] == manifest);
            }
        }
    }
}

/// Two accounts of one log make one: of what both know, the longer length and the
/// later state count, and the directory is due where either says so; what only one
/// knows stands.
pub proof fn law_merged_accounts_lose_nothing(
    held: Option<PendingDataLogManifest>,
    newer: Option<PendingDataLogManifest>,
)
    requires
        held is Some && newer is Some ==> held->0.storage_node == newer->0.storage_node
            && held->0.log_id == newer->0.log_id,
    ensures
        merged_manifest(held, newer) is None <==> held is None && newer is None,
        held is None ==> merged_manifest(held, newer) == newer,
        newer is None ==> merged_manifest(held, newer) == held,
        held is Some && newer is Some ==> {
            let both = merged_manifest(held, newer)->0;
            &&& both.storage_node == held->0.storage_node
            &&& both.log_id == held->0.log_id
            &&& both.state == newer->0.state
            &&& both.total_bytes >= held->0.total_bytes
            &&& both.total_bytes >= newer->0.total_bytes
            &&& both.total_bytes == held->0.total_bytes || both.total_bytes
                == newer->0.total_bytes
            &&& both.needs_dir_sync <==> held->0.needs_dir_sync || newer->0.needs_dir_sync
        },
{
}

/// Compaction leaves out just the logs whose payload no catalog shows yet; each
/// other log of a command is compacted.
pub proof fn law_every_settled_log_is_compacted(
    logs: Seq<DurableDataLogRef>,
    pending: Seq<DurableDataLogRef>,
    log: DurableDataLogRef,
)
    requires
        has_row(logs, log),
        !pending.contains(log),
    ensures
        has_row(refs_in(logs, pending, false), log),
{
    law_logs_are_parted(logs, pending, false, log);
}

/// A write is refused only where a policy holds writes back and the store says that
/// it cannot take any; it waits for a tick only where ticks run between writes and
/// one is due; and a tick that is due is scheduled with a write that is let in.
pub proof fn law_writes_are_held_back_only_as_asked(
    policy: MaintenancePolicy,
    plan: &MaintenanceTickPlan,
)
    ensures
        admission_step(policy, None) == AdmissionStep::Admit(WriteAdmission::Accept),
        admission_step(policy, Some(plan)) is Refuse <==> policy.write_backpressure_enabled
            && plan.unavailable is Some,
        admission_step(policy, Some(plan)) is TickFirst ==> policy.mode
            == MaintenanceMode::Opportunistic && plan.compactions@.len() > 0,
        admission_step(policy, Some(plan)) == AdmissionStep::Admit(
            WriteAdmission::AcceptAndSchedule,
        ) ==> plan.compactions@.len() > 0 && policy.mode != MaintenanceMode::Opportunistic,
        admission_step(policy, Some(plan)) == AdmissionStep::Admit(WriteAdmission::Accept)
            ==> plan.compactions@.len() == 0,
{
}

/// What is known of a log once the lanes of some plans are gathered is no less than
/// what any one of them knows: its length, and that the directory is due.
pub proof fn law_gathering_loses_no_lane(
    plans: Seq<StreamPersistPlan>,
    lanes: Map<u128, PendingDataLogAppend>,
    log: DurableDataLogRef,
    i: int,
)
    requires
        0 <= i < plans.len(),
        lane_manifest(plans[i], lanes, log) is Some,
    ensures
        gathered_manifest(plans, lanes, log) is Some,
        gathered_manifest(plans, lanes, log)->0.total_bytes >= lane_manifest(
            plans[i],
            lanes,
            log,
        )->0.total_bytes,
        lane_manifest(plans[i], lanes, log)->0.needs_dir_sync ==> gathered_manifest(
            plans,
            lanes,
            log,
        )->0.needs_dir_sync,
        i == plans.len() - 1 ==> gathered_manifest(plans, lanes, log)->0.state == lane_manifest(
            plans[i],
            lanes,
            log,
        )->0.state,
    decreases plans.len(),
{
    assert(plans[plans.len() - 1] == plans.last());
    if i < plans.len() - 1 {
        assert(plans.drop_last()[i] == plans[i]);
        law_gathering_loses_no_lane(plans.drop_last(), lanes, log, i);
    }
}

} // verus!
