//! What the store reports about itself, and its view of the primary storage
//! node.
use vstd::prelude::*;

use crate::block_api::{ByteRange, ReadVerification};
use crate::coordinator::LocalCoordinator;
use crate::error::StorageError;
use crate::id::{SegmentId, StorageNodeId};
use crate::idmap::{is_walk, IdMap};
use crate::observability::{
    DiagnosticsCounters, NativeFileBatchCommitProfile, ReadProfile, RingLog, StorageEvent,
};
use crate::metadata_records::SegmentPayloadIntegrity;
use crate::segment_records::{CatalogEntry, SegmentLifecycleState};
use crate::storage_nodes::{SegmentRecord, StorageNodeRegistry};
use crate::tree::copy_vec;

verus! {

/// What was seen of one storage node's logs.
#[derive(Clone, Copy, Debug, PartialEq, Eq, Structural)]
pub struct NodeMaintenanceObservation {
    pub storage_node: StorageNodeId,
    pub dirty_bytes: u64,
    pub reclaimable_bytes: u64,
    pub sealed_log_count: usize,
}

/// What was seen of the durable side of the store.
pub struct MaintenanceObservation {
    pub sqlite_wal_bytes: u64,
    pub nodes: Vec<NodeMaintenanceObservation>,
}

/// How full things are.
#[derive(Clone, Copy, Debug, PartialEq, Eq, Structural)]
pub struct DiagnosticsGauges {
    pub live_device_heads: u64,
    pub deleted_device_heads: u64,
    pub live_keyspace_heads: u64,
    pub metadata_nodes: u64,
    pub commit_seq: u64,
    pub checkpoint_count: u64,
    pub gc_epoch: u64,
    pub pending_release_evidence: u64,
    pub event_buffer_len: u64,
    pub event_buffer_capacity: u64,
    pub last_event_sequence: u64,
    pub sqlite_wal_bytes: u64,
    pub maintenance_dirty_bytes: u64,
    pub maintenance_reclaimable_bytes: u64,
    pub maintenance_sealed_logs: u64,
}

/// What one storage node holds.
#[derive(Clone, Copy, Debug, PartialEq, Eq, Structural)]
pub struct DiagnosticsNode {
    pub storage_node: StorageNodeId,
    pub segments: u64,
    pub released_segments: u64,
}

pub struct DiagnosticsSnapshot {
    pub counters: DiagnosticsCounters,
    pub gauges: DiagnosticsGauges,
    pub nodes: Vec<DiagnosticsNode>,
    pub recent_events: Vec<StorageEvent>,
}

/// A sum that stays at the largest number once it is there.
pub open spec fn saturated(a: u64, b: u64) -> u64 {
    if a + b > u64::MAX {
        u64::MAX
    } else {
        (a + b) as u64
    }
}

fn saturating_sum(a: u64, b: u64) -> (sum: u64)
    ensures
        sum == saturated(a, b),
{
    if a > u64::MAX - b {
        u64::MAX
    } else {
        a + b
    }
}

/// Which number of a node's observation is summed up.
#[derive(Clone, Copy, Debug, PartialEq, Eq, Structural)]
pub enum NodeGauge {
    DirtyBytes,
    ReclaimableBytes,
    SealedLogs,
}

pub open spec fn gauge_of(node: NodeMaintenanceObservation, gauge: NodeGauge) -> u64 {
    match gauge {
        NodeGauge::DirtyBytes => node.dirty_bytes,
        NodeGauge::ReclaimableBytes => node.reclaimable_bytes,
        NodeGauge::SealedLogs => node.sealed_log_count as u64,
    }
}

pub open spec fn gauge_sum(nodes: Seq<NodeMaintenanceObservation>, gauge: NodeGauge) -> u64
    decreases nodes.len(),
{
    if nodes.len() == 0 {
        0
    } else {
        saturated(gauge_sum(nodes.drop_last(), gauge), gauge_of(nodes.last(), gauge))
    }
}

fn sum_gauge(nodes: &Vec<NodeMaintenanceObservation>, gauge: NodeGauge) -> (sum: u64)
    ensures
        sum == gauge_sum(nodes@, gauge),
{
    let mut sum: u64 = 0;
    let mut next: usize = 0;
    assert(nodes@.take(0) =~= Seq::empty());
    while next < nodes.len()
        invariant
            next <= nodes@.len(),
            sum == gauge_sum(nodes@.take(next as int), gauge),
        decreases nodes@.len() - next,
    {
        let node = nodes[next];
        assert(nodes@.take(next + 1).drop_last() =~= nodes@.take(next as int));
        let value: u64 = match gauge {
            NodeGauge::DirtyBytes => node.dirty_bytes,
            NodeGauge::ReclaimableBytes => node.reclaimable_bytes,
            NodeGauge::SealedLogs => node.sealed_log_count as u64,
        };
        sum = saturating_sum(sum, value);
        next = next + 1;
    }
    assert(nodes@.take(next as int) =~= nodes@);
    sum
}

/// How many of some segments a node holds, all of them or the released.
pub open spec fn held_by(
    segments: Map<u128, SegmentRecord>,
    keys: Seq<u128>,
    storage_node: StorageNodeId,
    released_only: bool,
) -> nat
    decreases keys.len(),
{
    if keys.len() == 0 {
        0
    } else {
        let record = segments[keys.last()];
        held_by(segments, keys.drop_last(), storage_node, released_only) + if record.storage_node
            == storage_node && (!released_only || record.entry.state
            == SegmentLifecycleState::Released) {
            1nat
        } else {
            0nat
        }
    }
}

fn count_held(
    segments: &IdMap<SegmentRecord>,
    storage_node: StorageNodeId,
    released_only: bool,
) -> (count: u64)
    ensures
        is_walk(segments.keys(), segments@),
        count == held_by(segments@, segments.keys(), storage_node, released_only),
{
    let total: usize = segments.len();
    let ghost keys = segments.keys();
    let mut count: u64 = 0;
    let mut next: usize = 0;
    assert(keys.take(0) =~= Seq::empty());
    while next < total
        invariant
            next <= total,
            total == keys.len(),
            keys == segments.keys(),
            is_walk(keys, segments@),
            count <= next,
            count == held_by(segments@, keys.take(next as int), storage_node, released_only),
        decreases total - next,
    {
        let (key, record) = segments.entry_at(next);
        proof {
            assert(keys.take(next + 1).drop_last() =~= keys.take(next as int));
            assert(keys.take(next + 1).last() == key);
        }
        let released = match record.entry.state {
            SegmentLifecycleState::Released => true,
            _ => false,
        };
        if record.storage_node.0 == storage_node.0 && (!released_only || released) {
            count = count + 1;
        }
        next = next + 1;
    }
    assert(keys.take(next as int) =~= keys);
    count
}

/// The segments of one storage node.
pub struct SegmentStoreView<'a> {
    pub registry: &'a StorageNodeRegistry,
    pub storage_node: StorageNodeId,
}

impl<'a> SegmentStoreView<'a> {
    /// Reads part of a segment of this node.
    pub fn read(
        &self,
        segment_id: SegmentId,
        range: ByteRange,
        integrity: SegmentPayloadIntegrity,
        verification: ReadVerification,
        buf: &mut [u8],
    ) -> (result: Result<(), StorageError>)
        ensures
            final(buf)@.len() == old(buf)@.len(),
            result is Ok <==> range.len == old(buf)@.len() && self.registry.answers_read(
                self.storage_node,
                segment_id,
                range,
                integrity,
                verification,
            ),
            result is Ok ==> final(buf)@ == self.registry.segments@[segment_id.0].bytes@.subrange(
                range.offset as int,
                range.end(),
            ),
    {
        self.registry.read_segment_from_node(
            self.storage_node,
            segment_id,
            range,
            integrity,
            verification,
            buf,
        )
    }
}

/// What one storage node knows of its segments.
pub struct SegmentCatalogView<'a> {
    pub registry: &'a StorageNodeRegistry,
    pub storage_node: StorageNodeId,
}

impl<'a> SegmentCatalogView<'a> {
    /// Whether this node has a segment.
    pub open spec fn has(&self, segment_id: SegmentId) -> bool {
        self.registry.segments@.contains_key(segment_id.0)
            && self.registry.segments@[segment_id.0].storage_node == self.storage_node
    }

    pub fn entry(&self, segment_id: SegmentId) -> (entry: Option<CatalogEntry>)
        ensures
            entry is Some <==> self.has(segment_id),
            entry matches Some(found) ==> found == self.registry.segments@[segment_id.0].entry,
    {
        match self.registry.segments.get(segment_id.0) {
            Some(record) => if record.storage_node.0 == self.storage_node.0 {
                Some(record.entry)
            } else {
                None
            },
            None => None,
        }
    }
}

impl LocalCoordinator {
    /// The segments of the primary storage node.
    pub fn segment_store(&self) -> (store: SegmentStoreView<'_>)
        requires
            self.wf(),
        ensures
            *store.registry == self.storage_nodes,
            store.storage_node == self.storage_nodes.node_ids@[0],
    {
        SegmentStoreView {
            registry: &self.storage_nodes,
            storage_node: self.storage_nodes.node_ids[0],
        }
    }

    /// What the primary storage node knows of its segments.
    pub fn segment_catalog(&self) -> (catalog: SegmentCatalogView<'_>)
        requires
            self.wf(),
        ensures
            *catalog.registry == self.storage_nodes,
            catalog.storage_node == self.storage_nodes.node_ids@[0],
    {
        SegmentCatalogView {
            registry: &self.storage_nodes,
            storage_node: self.storage_nodes.node_ids[0],
        }
    }

    /// Whether the nodes of a report are those of the store, each with what
    /// it holds.
    pub open spec fn nodes_reported(&self, nodes: Seq<DiagnosticsNode>) -> bool {
        &&& nodes.len() == self.storage_nodes.node_ids@.len()
        &&& forall|i: int|
            0 <= i < nodes.len() ==> (#[trigger] nodes[i]) == (DiagnosticsNode {
                storage_node: self.storage_nodes.node_ids@[i],
                segments: held_by(
                    self.segments(),
                    self.storage_nodes.segments.keys(),
                    self.storage_nodes.node_ids@[i],
                    false,
                ) as u64,
                released_segments: held_by(
                    self.segments(),
                    self.storage_nodes.segments.keys(),
                    self.storage_nodes.node_ids@[i],
                    true,
                ) as u64,
            })
    }

    /// The released segments of all nodes of a report.
    pub open spec fn released_sum(nodes: Seq<DiagnosticsNode>) -> u64
        decreases nodes.len(),
    {
        if nodes.len() == 0 {
            0
        } else {
            saturated(
                LocalCoordinator::released_sum(nodes.drop_last()),
                nodes.last().released_segments,
            )
        }
    }

    fn report_nodes(&self) -> (result: (Vec<DiagnosticsNode>, u64))
        ensures
            self.nodes_reported(result.0@),
            result.1 == LocalCoordinator::released_sum(result.0@),
    {
        let mut nodes: Vec<DiagnosticsNode> = Vec::new();
        let mut released_total: u64 = 0;
        let mut next: usize = 0;
        while next < self.storage_nodes.node_ids.len()
            invariant
                next <= self.storage_nodes.node_ids@.len(),
                nodes@.len() == next,
                released_total == LocalCoordinator::released_sum(nodes@),
                forall|i: int|
                    0 <= i < nodes@.len() ==> (#[trigger] nodes@[i]) == (DiagnosticsNode {
                        storage_node: self.storage_nodes.node_ids@[i],
                        segments: held_by(
                            self.segments(),
                            self.storage_nodes.segments.keys(),
                            self.storage_nodes.node_ids@[i],
                            false,
                        ) as u64,
                        released_segments: held_by(
                            self.segments(),
                            self.storage_nodes.segments.keys(),
                            self.storage_nodes.node_ids@[i],
                            true,
                        ) as u64,
                    }),
            decreases self.storage_nodes.node_ids@.len() - next,
        {
            let ghost then = nodes@;
            let storage_node = self.storage_nodes.node_ids[next];
            let segments = count_held(&self.storage_nodes.segments, storage_node, false);
            let released_segments = count_held(&self.storage_nodes.segments, storage_node, true);
            nodes.push(DiagnosticsNode { storage_node, segments, released_segments });
            released_total = saturating_sum(released_total, released_segments);
            assert(nodes@.drop_last() =~= then);
            next = next + 1;
        }
        (nodes, released_total)
    }

    /// The gauges of the store, with what was seen of its durable side.
    pub open spec fn gauges(
        &self,
        nodes: Seq<DiagnosticsNode>,
        maintenance: Option<&MaintenanceObservation>,
    ) -> DiagnosticsGauges {
        DiagnosticsGauges {
            live_device_heads: self.metadata.device_heads.keys().len() as u64,
            deleted_device_heads: self.metadata.deleted_device_heads.keys().len() as u64,
            live_keyspace_heads: self.metadata.keyspace_heads.keys().len() as u64,
            metadata_nodes: self.metadata.trees.nodes.keys().len() as u64,
            commit_seq: if self.metadata.next_commit_seq == 0 {
                0
            } else {
                (self.metadata.next_commit_seq - 1) as u64
            },
            checkpoint_count: self.metadata.checkpoints.keys().len() as u64,
            gc_epoch: if self.metadata.next_gc_epoch == 0 {
                0
            } else {
                (self.metadata.next_gc_epoch - 1) as u64
            },
            pending_release_evidence: LocalCoordinator::released_sum(nodes),
            event_buffer_len: self.observability.events.items@.len() as u64,
            event_buffer_capacity: self.observability.events.capacity as u64,
            last_event_sequence: self.observability.last_sequence,
            sqlite_wal_bytes: match maintenance {
                Some(seen) => seen.sqlite_wal_bytes,
                None => 0,
            },
            maintenance_dirty_bytes: match maintenance {
                Some(seen) => gauge_sum(seen.nodes@, NodeGauge::DirtyBytes),
                None => 0,
            },
            maintenance_reclaimable_bytes: match maintenance {
                Some(seen) => gauge_sum(seen.nodes@, NodeGauge::ReclaimableBytes),
                None => 0,
            },
            maintenance_sealed_logs: match maintenance {
                Some(seen) => gauge_sum(seen.nodes@, NodeGauge::SealedLogs),
                None => 0,
            },
        }
    }

    /// A report of the store's counters, gauges and latest events.
    pub fn diagnostics_snapshot_with_maintenance(
        &self,
        maintenance: Option<&MaintenanceObservation>,
    ) -> (snapshot: DiagnosticsSnapshot)
        ensures
            snapshot.counters == self.observability.counters,
            snapshot.recent_events@ == self.observability.events.items@,
            self.nodes_reported(snapshot.nodes@),
            snapshot.gauges == self.gauges(snapshot.nodes@, maintenance),
    {
        let (nodes, released) = self.report_nodes();
        let (wal, dirty, reclaimable, sealed) = match maintenance {
            Some(seen) => (
                seen.sqlite_wal_bytes,
                sum_gauge(&seen.nodes, NodeGauge::DirtyBytes),
                sum_gauge(&seen.nodes, NodeGauge::ReclaimableBytes),
                sum_gauge(&seen.nodes, NodeGauge::SealedLogs),
            ),
            None => (0, 0, 0, 0),
        };
        let gauges = DiagnosticsGauges {
            live_device_heads: self.metadata.device_heads.len() as u64,
            deleted_device_heads: self.metadata.deleted_device_heads.len() as u64,
            live_keyspace_heads: self.metadata.keyspace_heads.len() as u64,
            metadata_nodes: self.metadata.trees.nodes.len() as u64,
            commit_seq: if self.metadata.next_commit_seq == 0 {
                0
            } else {
                self.metadata.next_commit_seq - 1
            },
            checkpoint_count: self.metadata.checkpoints.len() as u64,
            gc_epoch: if self.metadata.next_gc_epoch == 0 {
                0
            } else {
                self.metadata.next_gc_epoch - 1
            },
            pending_release_evidence: released,
            event_buffer_len: self.observability.events.items.len() as u64,
            event_buffer_capacity: self.observability.events.capacity as u64,
            last_event_sequence: self.observability.last_sequence,
            sqlite_wal_bytes: wal,
            maintenance_dirty_bytes: dirty,
            maintenance_reclaimable_bytes: reclaimable,
            maintenance_sealed_logs: sealed,
        };
        DiagnosticsSnapshot {
            counters: self.observability.counters,
            gauges,
            nodes,
            recent_events: copy_vec(&self.observability.events.items),
        }
    }

    /// A report of the store's counters, gauges and latest events.
    pub fn diagnostics_snapshot(&self) -> (snapshot: DiagnosticsSnapshot)
        ensures
            snapshot.counters == self.observability.counters,
            snapshot.recent_events@ == self.observability.events.items@,
            self.nodes_reported(snapshot.nodes@),
            snapshot.gauges == self.gauges(snapshot.nodes@, None),
    {
        self.diagnostics_snapshot_with_maintenance(None)
    }

    /// Takes the oldest events out, at most `max` of them.
    pub fn drain_events(&mut self, max: usize) -> (taken: Vec<StorageEvent>)
        requires
            old(self).wf(),
        ensures
            final(self).wf(),
            *final(self) == (LocalCoordinator {
                observability: final(self).observability,
                ..*old(self)
            }),
            final(self).observability.counters == old(self).observability.counters,
            taken@ + final(self).observability.events.items@ == old(
                self,
            ).observability.events.items@,
            taken@.len() == if max <= old(self).observability.events.items@.len() {
                max as nat
            } else {
                old(self).observability.events.items@.len()
            },
    {
        self.observability.events.drain(max)
    }

    /// Starts to keep the profiles of reads.
    pub fn enable_read_profiling(&mut self, capacity: usize) -> (result: Result<(), StorageError>)
        requires
            old(self).wf(),
        ensures
            final(self).wf(),
            result is Ok <==> capacity > 0,
            result is Ok ==> *final(self) == (LocalCoordinator {
                read_profiler: final(self).read_profiler,
                ..*old(self)
            }) && (final(self).read_profiler matches Some(profiler) && profiler.capacity == capacity
                && profiler.items@.len() == 0),
            result matches Err(error) ==> error is InvalidArgument && *final(self) == *old(self),
    {
        match RingLog::new(capacity) {
            Ok(profiler) => {
                self.read_profiler = Some(profiler);
                Ok(())
            },
            Err(error) => Err(error),
        }
    }

    /// Keeps the profile of a read, if profiles are kept.
    pub fn record_read_profile(&mut self, profile: ReadProfile)
        requires
            old(self).wf(),
        ensures
            final(self).wf(),
            *final(self) == (LocalCoordinator {
                read_profiler: final(self).read_profiler,
                ..*old(self)
            }),
            old(self).read_profiler is None ==> final(self).read_profiler is None,
            old(self).read_profiler matches Some(before) ==> (
            final(self).read_profiler matches Some(after) && after.capacity == before.capacity
                && after.items@ == crate::observability::ring_push(
                before.items@,
                before.capacity as int,
                profile,
            )),
    {
        let mut profiler: Option<RingLog<ReadProfile>> = None;
        core::mem::swap(&mut self.read_profiler, &mut profiler);
        match profiler {
            Some(mut log) => {
                log.record(profile);
                self.read_profiler = Some(log);
            },
            None => {},
        }
    }

    /// Takes the oldest read profiles out, at most `max` of them.
    pub fn drain_read_profiles(&mut self, max: usize) -> (taken: Vec<ReadProfile>)
        requires
            old(self).wf(),
        ensures
            final(self).wf(),
            *final(self) == (LocalCoordinator {
                read_profiler: final(self).read_profiler,
                ..*old(self)
            }),
            old(self).read_profiler is None ==> taken@.len() == 0 && final(self).read_profiler is None,
            old(self).read_profiler matches Some(before) ==> (
            final(self).read_profiler matches Some(after) && after.capacity == before.capacity
                && taken@ + after.items@ == before.items@ && taken@.len() == if max
                <= before.items@.len() {
                max as nat
            } else {
                before.items@.len()
            }),
    {
        let mut profiler: Option<RingLog<ReadProfile>> = None;
        core::mem::swap(&mut self.read_profiler, &mut profiler);
        match profiler {
            Some(mut log) => {
                let taken = log.drain(max);
                self.read_profiler = Some(log);
                taken
            },
            None => Vec::new(),
        }
    }

    /// Starts to keep the profiles of file batches.
    pub fn enable_native_file_batch_profiling(&mut self, capacity: usize) -> (result: Result<
        (),
        StorageError,
    >)
        requires
            old(self).wf(),
        ensures
            final(self).wf(),
            result is Ok <==> capacity > 0,
            result is Ok ==> *final(self) == (LocalCoordinator {
                native_file_batch_profiler: final(self).native_file_batch_profiler,
                ..*old(self)
            }) && (final(self).native_file_batch_profiler matches Some(profiler)
                && profiler.capacity == capacity && profiler.items@.len() == 0),
            result matches Err(error) ==> error is InvalidArgument && *final(self) == *old(self),
    {
        match RingLog::new(capacity) {
            Ok(profiler) => {
                self.native_file_batch_profiler = Some(profiler);
                Ok(())
            },
            Err(error) => Err(error),
        }
    }

    /// Keeps the profile of a file batch, if profiles are kept.
    pub fn record_native_file_batch_profile(&mut self, profile: NativeFileBatchCommitProfile)
        requires
            old(self).wf(),
        ensures
            final(self).wf(),
            *final(self) == (LocalCoordinator {
                native_file_batch_profiler: final(self).native_file_batch_profiler,
                ..*old(self)
            }),
            old(self).native_file_batch_profiler is None
                ==> final(self).native_file_batch_profiler is None,
            old(self).native_file_batch_profiler matches Some(before) ==> (
            final(self).native_file_batch_profiler matches Some(after) && after.capacity
                == before.capacity && after.items@ == crate::observability::ring_push(
                before.items@,
                before.capacity as int,
                profile,
            )),
    {
        let mut profiler: Option<RingLog<NativeFileBatchCommitProfile>> = None;
        core::mem::swap(&mut self.native_file_batch_profiler, &mut profiler);
        match profiler {
            Some(mut log) => {
                log.record(profile);
                self.native_file_batch_profiler = Some(log);
            },
            None => {},
        }
    }

    /// Puts the time that a file batch took into the latest profile, if there is
    /// one; the store itself has no clock.
    pub fn time_native_file_batch(&mut self, total_nanos: u64)
        requires
            old(self).wf(),
        ensures
            final(self).wf(),
            *final(self) == (LocalCoordinator {
                native_file_batch_profiler: final(self).native_file_batch_profiler,
                ..*old(self)
            }),
            old(self).native_file_batch_profiler is None
                ==> final(self).native_file_batch_profiler is None,
            old(self).native_file_batch_profiler matches Some(before) ==> (
            final(self).native_file_batch_profiler matches Some(after) && after.capacity
                == before.capacity && after.items@ == if before.items@.len() == 0 {
                before.items@
            } else {
                before.items@.drop_last().push(
                    NativeFileBatchCommitProfile { total_nanos, ..before.items@.last() },
                )
            }),
    {
        let mut profiler: Option<RingLog<NativeFileBatchCommitProfile>> = None;
        core::mem::swap(&mut self.native_file_batch_profiler, &mut profiler);
        match profiler {
            Some(mut log) => {
                let ghost items = log.items@;
                match log.items.pop() {
                    Some(last) => {
                        log.items.push(NativeFileBatchCommitProfile { total_nanos, ..last });
                    },
                    None => {},
                }
                self.native_file_batch_profiler = Some(log);
            },
            None => {},
        }
    }

    /// Takes the oldest file batch profiles out, at most `max` of them.
    pub fn drain_native_file_batch_commit_profiles(&mut self, max: usize) -> (taken: Vec<
        NativeFileBatchCommitProfile,
    >)
        requires
            old(self).wf(),
        ensures
            final(self).wf(),
            *final(self) == (LocalCoordinator {
                native_file_batch_profiler: final(self).native_file_batch_profiler,
                ..*old(self)
            }),
            old(self).native_file_batch_profiler is None ==> taken@.len() == 0
                && final(self).native_file_batch_profiler is None,
            old(self).native_file_batch_profiler matches Some(before) ==> (
            final(self).native_file_batch_profiler matches Some(after) && after.capacity
                == before.capacity && taken@ + after.items@ == before.items@ && taken@.len()
                == if max <= before.items@.len() {
                max as nat
            } else {
                before.items@.len()
            }),
    {
        let mut profiler: Option<RingLog<NativeFileBatchCommitProfile>> = None;
        core::mem::swap(&mut self.native_file_batch_profiler, &mut profiler);
        match profiler {
            Some(mut log) => {
                let taken = log.drain(max);
                self.native_file_batch_profiler = Some(log);
                taken
            },
            None => Vec::new(),
        }
    }
}

} // verus!
