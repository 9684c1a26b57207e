//! Events, counters and profiles that the store keeps about itself.
use vstd::prelude::*;

use crate::error::StorageError;
use crate::id::{CommitSeq, SegmentId, StorageNodeId};

verus! {

/// The last items of a series, in order; when it is full the oldest goes.
pub struct RingLog<T> {
    pub capacity: usize,
    pub items: Vec<T>,
}

/// A series with one item more.
pub open spec fn ring_push<T>(items: Seq<T>, capacity: int, item: T) -> Seq<T> {
    if items.len() >= capacity {
        items.drop_first().push(item)
    } else {
        items.push(item)
    }
}

impl<T> RingLog<T> {
    pub open spec fn wf(&self) -> bool {
        &&& self.capacity > 0
        &&& self.items@.len() <= self.capacity
    }

    pub fn new(capacity: usize) -> (result: Result<RingLog<T>, StorageError>)
        ensures
            result is Ok <==> capacity > 0,
            result matches Ok(log) ==> log.wf() && log.capacity == capacity && log.items@.len()
                == 0,
            result matches Err(error) ==> error is InvalidArgument,
    {
        if capacity == 0 {
            return Err(StorageError::invalid_argument("capacity must be greater than zero"));
        }
        Ok(RingLog { capacity, items: Vec::new() })
    }

    pub fn record(&mut self, item: T)
        requires
            old(self).wf(),
        ensures
            final(self).wf(),
            final(self).capacity == old(self).capacity,
            final(self).items@ == ring_push(old(self).items@, old(self).capacity as int, item),
    {
        if self.items.len() >= self.capacity {
            let _oldest = self.items.remove(0);
            assert(self.items@ =~= old(self).items@.drop_first());
        }
        self.items.push(item);
    }

    /// Takes the oldest items out, at most `max` of them.
    pub fn drain(&mut self, max: usize) -> (taken: Vec<T>)
        requires
            old(self).wf(),
        ensures
            final(self).wf(),
            final(self).capacity == old(self).capacity,
            taken@ + final(self).items@ == old(self).items@,
            taken@.len() == if max <= old(self).items@.len() {
                max as nat
            } else {
                old(self).items@.len()
            },
    {
        let count: usize = if max <= self.items.len() {
            max
        } else {
            self.items.len()
        };
        let mut rest = self.items.split_off(count);
        core::mem::swap(&mut self.items, &mut rest);
        proof {
            assert(rest@ + self.items@ =~= old(self).items@);
        }
        rest
    }
}

#[derive(Clone, Copy, PartialEq, Eq, Structural, Debug)]
pub enum StorageEventKind {
    CoordinatorWriteStarted,
    CoordinatorWriteUnavailable,
    MetadataPublishSucceeded,
    MetadataPublishFailed,
    GrantIssued,
    GrantRejected,
    ReceiptVerified,
    ReceiptRejected,
    DeviceForked,
    DeviceRestored,
    KeyspaceRestored,
    MetadataCustodianRan,
    StorageNodeCustodianRan,
    MaintenancePlanned,
    MaintenanceTicked,
}

#[derive(Clone, Copy, PartialEq, Eq, Debug)]
pub struct StorageEvent {
    pub sequence: u64,
    pub kind: StorageEventKind,
    pub storage_node: Option<StorageNodeId>,
    pub segment_id: Option<SegmentId>,
    pub commit_seq: Option<CommitSeq>,
    /// Why something was refused, if it was.
    pub reason: Option<&'static str>,
}

/// How often things have happened; a counter that is full stays so.
#[derive(Clone, Copy, PartialEq, Eq, Structural, Debug)]
pub struct DiagnosticsCounters {
    pub coordinator_write_attempts: u64,
    pub coordinator_write_unavailable: u64,
    pub coordinator_write_publish_successes: u64,
    pub coordinator_write_publish_failures: u64,
    pub metadata_stale_fences: u64,
    pub grants_issued: u64,
    pub grant_rejections: u64,
    pub receipts_verified: u64,
    pub receipt_rejections: u64,
    pub metadata_custodian_runs: u64,
    pub storage_node_custodian_runs: u64,
    pub maintenance_plans: u64,
    pub maintenance_logs_selected: u64,
    pub maintenance_logs_skipped: u64,
    pub maintenance_ticks: u64,
    pub maintenance_bytes_copied: u64,
    pub maintenance_bytes_deleted: u64,
}

pub open spec fn bumped(count: u64) -> u64 {
    if count == u64::MAX {
        count
    } else {
        (count + 1) as u64
    }
}

fn bump(count: u64) -> (next: u64)
    ensures
        next == bumped(count),
{
    if count == u64::MAX {
        count
    } else {
        count + 1
    }
}

/// What an event does to the counters.
pub open spec fn counted(
    counters: DiagnosticsCounters,
    kind: StorageEventKind,
) -> DiagnosticsCounters {
    match kind {
        StorageEventKind::CoordinatorWriteStarted => DiagnosticsCounters {
            coordinator_write_attempts: bumped(counters.coordinator_write_attempts),
            ..counters
        },
        StorageEventKind::CoordinatorWriteUnavailable => DiagnosticsCounters {
            coordinator_write_attempts: bumped(counters.coordinator_write_attempts),
            coordinator_write_unavailable: bumped(counters.coordinator_write_unavailable),
            ..counters
        },
        StorageEventKind::MetadataPublishSucceeded => DiagnosticsCounters {
            coordinator_write_publish_successes: bumped(
                counters.coordinator_write_publish_successes,
            ),
            ..counters
        },
        StorageEventKind::MetadataPublishFailed => DiagnosticsCounters {
            coordinator_write_publish_failures: bumped(counters.coordinator_write_publish_failures),
            ..counters
        },
        StorageEventKind::GrantIssued => DiagnosticsCounters {
            grants_issued: bumped(counters.grants_issued),
            ..counters
        },
        StorageEventKind::GrantRejected => DiagnosticsCounters {
            grant_rejections: bumped(counters.grant_rejections),
            ..counters
        },
        StorageEventKind::ReceiptVerified => DiagnosticsCounters {
            receipts_verified: bumped(counters.receipts_verified),
            ..counters
        },
        StorageEventKind::ReceiptRejected => DiagnosticsCounters {
            receipt_rejections: bumped(counters.receipt_rejections),
            ..counters
        },
        StorageEventKind::MetadataCustodianRan => DiagnosticsCounters {
            metadata_custodian_runs: bumped(counters.metadata_custodian_runs),
            ..counters
        },
        StorageEventKind::StorageNodeCustodianRan => DiagnosticsCounters {
            storage_node_custodian_runs: bumped(counters.storage_node_custodian_runs),
            ..counters
        },
        _ => counters,
    }
}

/// What a publish that failed does to the counters; one that came too late is
/// counted as such as well.
pub open spec fn failure_counted(
    counters: DiagnosticsCounters,
    fenced: bool,
) -> DiagnosticsCounters {
    DiagnosticsCounters {
        coordinator_write_publish_failures: bumped(counters.coordinator_write_publish_failures),
        metadata_stale_fences: if fenced {
            bumped(counters.metadata_stale_fences)
        } else {
            counters.metadata_stale_fences
        },
        ..counters
    }
}

/// Whether the counters of writes and publishes are as they were.
pub open spec fn write_counts_kept(
    before: DiagnosticsCounters,
    after: DiagnosticsCounters,
) -> bool {
    &&& after.coordinator_write_attempts == before.coordinator_write_attempts
    &&& after.coordinator_write_unavailable == before.coordinator_write_unavailable
    &&& after.coordinator_write_publish_successes == before.coordinator_write_publish_successes
    &&& after.coordinator_write_publish_failures == before.coordinator_write_publish_failures
    &&& after.metadata_stale_fences == before.metadata_stale_fences
}

/// Whether one attempt to write was counted and, where it has led to a commit,
/// one publish.
pub open spec fn write_counted(
    before: DiagnosticsCounters,
    after: DiagnosticsCounters,
    published: bool,
) -> bool {
    write_counts_kept(
        if published {
            counted(
                counted(before, StorageEventKind::CoordinatorWriteStarted),
                StorageEventKind::MetadataPublishSucceeded,
            )
        } else {
            counted(before, StorageEventKind::CoordinatorWriteStarted)
        },
        after,
    )
}

/// The sum of two counts; one that is full stays so.
pub open spec fn summed(a: u64, b: u64) -> u64 {
    if a + b > u64::MAX {
        u64::MAX
    } else {
        (a + b) as u64
    }
}

fn sum(a: u64, b: u64) -> (total: u64)
    ensures
        total == summed(a, b),
{
    if a > u64::MAX - b {
        u64::MAX
    } else {
        a + b
    }
}

/// What a maintenance plan does to the counters.
pub open spec fn plan_counted(
    counters: DiagnosticsCounters,
    selected: u64,
    skipped: u64,
) -> DiagnosticsCounters {
    DiagnosticsCounters {
        maintenance_plans: bumped(counters.maintenance_plans),
        maintenance_logs_selected: summed(counters.maintenance_logs_selected, selected),
        maintenance_logs_skipped: summed(counters.maintenance_logs_skipped, skipped),
        ..counters
    }
}

/// What a maintenance tick does to the counters.
pub open spec fn tick_counted(
    counters: DiagnosticsCounters,
    copied: u64,
    deleted: u64,
) -> DiagnosticsCounters {
    DiagnosticsCounters {
        maintenance_ticks: bumped(counters.maintenance_ticks),
        maintenance_bytes_copied: summed(counters.maintenance_bytes_copied, copied),
        maintenance_bytes_deleted: summed(counters.maintenance_bytes_deleted, deleted),
        ..counters
    }
}

/// The reason that an event of a kind has by itself.
pub open spec fn own_reason(kind: StorageEventKind) -> Option<&'static str> {
    match kind {
        StorageEventKind::MetadataPublishFailed => Some("publish_failed"),
        StorageEventKind::GrantRejected => Some("scope"),
        StorageEventKind::ReceiptRejected => Some("receipt"),
        _ => None,
    }
}

fn reason_of(kind: StorageEventKind) -> (reason: Option<&'static str>)
    ensures
        reason == own_reason(kind),
{
    match kind {
        StorageEventKind::MetadataPublishFailed => Some("publish_failed"),
        StorageEventKind::GrantRejected => Some("scope"),
        StorageEventKind::ReceiptRejected => Some("receipt"),
        _ => None,
    }
}

pub open spec fn no_counts() -> DiagnosticsCounters {
    DiagnosticsCounters {
        coordinator_write_attempts: 0,
        coordinator_write_unavailable: 0,
        coordinator_write_publish_successes: 0,
        coordinator_write_publish_failures: 0,
        metadata_stale_fences: 0,
        grants_issued: 0,
        grant_rejections: 0,
        receipts_verified: 0,
        receipt_rejections: 0,
        metadata_custodian_runs: 0,
        storage_node_custodian_runs: 0,
        maintenance_plans: 0,
        maintenance_logs_selected: 0,
        maintenance_logs_skipped: 0,
        maintenance_ticks: 0,
        maintenance_bytes_copied: 0,
        maintenance_bytes_deleted: 0,
    }
}

pub struct Observability {
    pub counters: DiagnosticsCounters,
    pub events: RingLog<StorageEvent>,
    pub last_sequence: u64,
}

impl Observability {
    pub open spec fn wf(&self) -> bool {
        self.events.wf()
    }

    pub fn new(capacity: usize) -> (result: Result<Observability, StorageError>)
        ensures
            result is Ok <==> capacity > 0,
            result matches Ok(made) ==> made.wf() && made.counters == no_counts()
                && made.events.items@.len() == 0 && made.events.capacity == capacity
                && made.last_sequence == 0,
            result matches Err(error) ==> error is InvalidArgument,
    {
        match RingLog::new(capacity) {
            Ok(events) => Ok(
                Observability {
                    counters: DiagnosticsCounters {
                        coordinator_write_attempts: 0,
                        coordinator_write_unavailable: 0,
                        coordinator_write_publish_successes: 0,
                        coordinator_write_publish_failures: 0,
                        metadata_stale_fences: 0,
                        grants_issued: 0,
                        grant_rejections: 0,
                        receipts_verified: 0,
                        receipt_rejections: 0,
                        metadata_custodian_runs: 0,
                        storage_node_custodian_runs: 0,
                        maintenance_plans: 0,
                        maintenance_logs_selected: 0,
                        maintenance_logs_skipped: 0,
                        maintenance_ticks: 0,
                        maintenance_bytes_copied: 0,
                        maintenance_bytes_deleted: 0,
                    },
                    events,
                    last_sequence: 0,
                },
            ),
            Err(error) => Err(error),
        }
    }

    /// Whether an event was put behind the others.
    pub open spec fn event_kept(
        &self,
        before: &Observability,
        kind: StorageEventKind,
        storage_node: Option<StorageNodeId>,
        segment_id: Option<SegmentId>,
        commit_seq: Option<CommitSeq>,
        reason: Option<&'static str>,
    ) -> bool {
        &&& self.last_sequence == bumped(before.last_sequence)
        &&& self.events.capacity == before.events.capacity
        &&& self.events.items@ == ring_push(
            before.events.items@,
            before.events.capacity as int,
            StorageEvent {
                sequence: bumped(before.last_sequence),
                kind,
                storage_node,
                segment_id,
                commit_seq,
                reason,
            },
        )
    }

    /// Counts an event and keeps it.
    pub fn record(
        &mut self,
        kind: StorageEventKind,
        storage_node: Option<StorageNodeId>,
        segment_id: Option<SegmentId>,
        commit_seq: Option<CommitSeq>,
    )
        requires
            old(self).wf(),
        ensures
            final(self).wf(),
            final(self).counters == counted(old(self).counters, kind),
            final(self).event_kept(
                old(self),
                kind,
                storage_node,
                segment_id,
                commit_seq,
                own_reason(kind),
            ),
    {
        self.record_with_reason(kind, storage_node, segment_id, commit_seq, reason_of(kind));
    }

    /// Counts a publish that failed and keeps the event.
    pub fn record_publish_failure(&mut self, fenced: bool)
        requires
            old(self).wf(),
        ensures
            final(self).wf(),
            final(self).counters == failure_counted(old(self).counters, fenced),
            final(self).event_kept(
                old(self),
                StorageEventKind::MetadataPublishFailed,
                None,
                None,
                None,
                Some("publish_failed"),
            ),
    {
        if fenced {
            self.counters.metadata_stale_fences = bump(self.counters.metadata_stale_fences);
        }
        self.record(StorageEventKind::MetadataPublishFailed, None, None, None);
    }

    /// Counts a maintenance plan and keeps the event.
    pub fn record_plan(&mut self, selected: u64, skipped: u64)
        requires
            old(self).wf(),
        ensures
            final(self).wf(),
            final(self).counters == plan_counted(old(self).counters, selected, skipped),
            final(self).event_kept(
                old(self),
                StorageEventKind::MaintenancePlanned,
                None,
                None,
                None,
                None,
            ),
    {
        self.counters.maintenance_plans = bump(self.counters.maintenance_plans);
        self.counters.maintenance_logs_selected = sum(
            self.counters.maintenance_logs_selected,
            selected,
        );
        self.counters.maintenance_logs_skipped = sum(
            self.counters.maintenance_logs_skipped,
            skipped,
        );
        self.record(StorageEventKind::MaintenancePlanned, None, None, None);
    }

    /// Counts a maintenance tick and keeps the event.
    pub fn record_tick(&mut self, copied: u64, deleted: u64)
        requires
            old(self).wf(),
        ensures
            final(self).wf(),
            final(self).counters == tick_counted(old(self).counters, copied, deleted),
            final(self).event_kept(
                old(self),
                StorageEventKind::MaintenanceTicked,
                None,
                None,
                None,
                None,
            ),
    {
        self.counters.maintenance_ticks = bump(self.counters.maintenance_ticks);
        self.counters.maintenance_bytes_copied = sum(
            self.counters.maintenance_bytes_copied,
            copied,
        );
        self.counters.maintenance_bytes_deleted = sum(
            self.counters.maintenance_bytes_deleted,
            deleted,
        );
        self.record(StorageEventKind::MaintenanceTicked, None, None, None);
    }

    /// Counts an event and keeps it, with a reason.
    pub fn record_with_reason(
        &mut self,
        kind: StorageEventKind,
        storage_node: Option<StorageNodeId>,
        segment_id: Option<SegmentId>,
        commit_seq: Option<CommitSeq>,
        reason: Option<&'static str>,
    )
        requires
            old(self).wf(),
        ensures
            final(self).wf(),
            final(self).counters == counted(old(self).counters, kind),
            final(self).event_kept(
                old(self),
                kind,
                storage_node,
                segment_id,
                commit_seq,
                reason,
            ),
    {
        self.last_sequence = bump(self.last_sequence);
        self.events.record(
            StorageEvent {
                sequence: self.last_sequence,
                kind,
                storage_node,
                segment_id,
                commit_seq,
                reason,
            },
        );
        let c = self.counters;
        match kind {
            StorageEventKind::CoordinatorWriteStarted => {
                self.counters.coordinator_write_attempts = bump(c.coordinator_write_attempts);
            },
            StorageEventKind::CoordinatorWriteUnavailable => {
                self.counters.coordinator_write_attempts = bump(c.coordinator_write_attempts);
                self.counters.coordinator_write_unavailable = bump(
                    c.coordinator_write_unavailable,
                );
            },
            StorageEventKind::MetadataPublishSucceeded => {
                self.counters.coordinator_write_publish_successes = bump(
                    c.coordinator_write_publish_successes,
                );
            },
            StorageEventKind::MetadataPublishFailed => {
                self.counters.coordinator_write_publish_failures = bump(
                    c.coordinator_write_publish_failures,
                );
            },
            StorageEventKind::GrantIssued => {
                self.counters.grants_issued = bump(c.grants_issued);
            },
            StorageEventKind::GrantRejected => {
                self.counters.grant_rejections = bump(c.grant_rejections);
            },
            StorageEventKind::ReceiptVerified => {
                self.counters.receipts_verified = bump(c.receipts_verified);
            },
            StorageEventKind::ReceiptRejected => {
                self.counters.receipt_rejections = bump(c.receipt_rejections);
            },
            StorageEventKind::MetadataCustodianRan => {
                self.counters.metadata_custodian_runs = bump(c.metadata_custodian_runs);
            },
            StorageEventKind::StorageNodeCustodianRan => {
                self.counters.storage_node_custodian_runs = bump(c.storage_node_custodian_runs);
            },
            _ => {},
        }
    }
}

/// Where the time of a read went, in nanoseconds.
#[derive(Clone, Copy, PartialEq, Eq, Structural, Debug)]
pub struct ReadProfile {
    pub total_nanos: u64,
    pub metadata_resolve_nanos: u64,
    pub metadata_lock_wait_nanos: u64,
    pub metadata_tree_walk_nanos: u64,
    pub metadata_placement_lookup_nanos: u64,
}

/// Where the time of a file batch went, in nanoseconds, and its sizes.
#[derive(Clone, Copy, PartialEq, Eq, Structural, Debug)]
pub struct NativeFileBatchCommitProfile {
    pub total_nanos: u64,
    pub metadata_head_nanos: u64,
    pub collapse_nanos: u64,
    pub segment_write_nanos: u64,
    pub tree_path_copy_nanos: u64,
    pub metadata_publish_nanos: u64,
    pub write_count: u64,
    pub collapsed_range_count: u64,
    pub requested_bytes: u64,
    pub committed_bytes: u64,
    pub committed_range_bytes: u64,
    pub segment_group_count: u64,
    pub segment_count: u64,
}

} // verus!
