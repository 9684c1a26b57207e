//! The custodians: the one of the metadata marks and sweeps, the one of the
//! storage nodes gives up segments that nothing maps.
use vstd::prelude::*;

use crate::coordinator::LocalCoordinator;
use crate::device_trees::{device_block_at, lemma_device_kept_below};
use crate::error::StorageError;
use crate::export_rows::{NameKind, Names, all_keys, lists_node, map_names};
use crate::export_state::any_node_names;
use crate::gc::{MetadataMarkReport, RetentionPolicy, lemma_swept_of_marked};
use crate::id::{
    AppendStreamId, DeviceId, FileId, KeyspaceId, SegmentId, StorageNodeId, WriteIntentId,
};
use crate::idmap::{IdMap, is_walk};
use crate::metadata::{
    AppendPublishInFlight, LiveAppendStream, MetadataInner, stream_record_wf,
    stream_wf, streams_wf,
};
use crate::metadata_records::{
    AppendStreamRunRecord, AppendStreamStatus, MetadataNode, MetadataNodeKind, RunBackedFileExtent,
};
use crate::metadata_streams::records_byte;
use crate::observability::{StorageEventKind, counted};
use crate::reach::{lemma_kept_below, names_segment, node_names, reaches, segments_named};
use crate::read_plan::{RunLogMap, node_runs_backed, run_backed, tree_runs_backed};
use crate::segment_records::{CatalogEntry, SegmentLifecycleState};
use crate::storage_nodes::{SegmentRecord, StorageNodeRegistry, keeps_segments};
use crate::tree::{block_at, node_backed, run_at, tree_backed};

verus! {

/// What a sweep gave up.
pub struct MetadataSweepReport {
    pub epoch: u64,
    pub released_segments: Vec<SegmentId>,
}

/// What the metadata custodian did.
pub struct MetadataCustodianReport {
    pub mark: MetadataMarkReport,
    pub sweep: MetadataSweepReport,
    /// The swept segments that the storage nodes now hold as released.
    pub catalog_released_segments: Vec<SegmentId>,
}

/// What the storage node custodian gave up.
pub struct StorageNodeCustodianReport {
    pub expired_reservations: Vec<SegmentId>,
    pub failed_writes: Vec<SegmentId>,
    pub orphan_segments: Vec<SegmentId>,
    pub deleted_released_segments: Vec<SegmentId>,
}

/// Whether a node maps bytes to a run log.
pub open spec fn node_uses_log(node: MetadataNode, key: (StorageNodeId, u64)) -> bool {
    node.kind matches MetadataNodeKind::Leaf { run_extents, .. } && extents_use_log(
        run_extents@,
        key,
    )
}

pub open spec fn extents_use_log(
    extents: Seq<RunBackedFileExtent>,
    key: (StorageNodeId, u64),
) -> bool {
    exists|i: int|
        0 <= i < extents.len() && (#[trigger] extents[i]).run.storage_node == key.0
            && extents[i].run.log_id == key.1
}

/// Whether an open stream has records in a run log.
pub open spec fn stream_uses_log(stream: LiveAppendStream, key: (StorageNodeId, u64)) -> bool {
    stream.state.status == AppendStreamStatus::Active && records_use_log(
        stream.state.records@,
        key,
    )
}

fn add_extent_logs(extents: &Vec<RunBackedFileExtent>, out: &mut Vec<(StorageNodeId, u64)>)
    ensures
        forall|key: (StorageNodeId, u64)| #[trigger]
            final(out)@.contains(key) <==> old(out)@.contains(key) || extents_use_log(extents@, key),
{
    let mut next: usize = 0;
    while next < extents.len()
        invariant
            next <= extents@.len(),
            forall|key: (StorageNodeId, u64)| #[trigger]
                out@.contains(key) <==> old(out)@.contains(key) || extents_use_log(
                    extents@.take(next as int),
                    key,
                ),
        decreases extents@.len() - next,
    {
        let ghost then = out@;
        let added = (extents[next].run.storage_node, extents[next].run.log_id);
        out.push(added);
        proof {
            let more = extents@.take(next + 1);
            let less = extents@.take(next as int);
            assert forall|key: (StorageNodeId, u64)| #[trigger]
                out@.contains(key) <==> old(out)@.contains(key) || extents_use_log(more, key) by {
                lemma_pushed(then, added, key);
                if extents_use_log(less, key) {
                    let i = choose|i: int|
                        0 <= i < less.len() && (#[trigger] less[i]).run.storage_node == key.0
                            && less[i].run.log_id == key.1;
                    assert(more[i].run.storage_node == key.0);
                }
                if key == added {
                    assert(more[next as int].run.storage_node == key.0);
                }
                if extents_use_log(more, key) {
                    let i = choose|i: int|
                        0 <= i < more.len() && (#[trigger] more[i]).run.storage_node == key.0
                            && more[i].run.log_id == key.1;
                    if i < next {
                        assert(less[i].run.storage_node == key.0);
                    }
                }
            }
        }
        next = next + 1;
    }
    assert(extents@.take(next as int) =~= extents@);
}

proof fn lemma_pushed<T>(items: Seq<T>, added: T, item: T)
    ensures
        items.push(added).contains(item) <==> items.contains(item) || item == added,
{
    if items.contains(item) {
        let i = items.index_of(item);
        assert(items.push(added)[i] == item);
    }
    if item == added {
        assert(items.push(added)[items.len() as int] == item);
    }
    if items.push(added).contains(item) {
        let i = items.push(added).index_of(item);
        if i < items.len() {
            assert(items[i] == item);
        }
    }
}

fn add_record_logs(records: &Vec<AppendStreamRunRecord>, out: &mut Vec<(StorageNodeId, u64)>)
    ensures
        forall|key: (StorageNodeId, u64)| #[trigger]
            final(out)@.contains(key) <==> old(out)@.contains(key) || records_use_log(records@, key),
{
    let mut next: usize = 0;
    while next < records.len()
        invariant
            next <= records@.len(),
            forall|key: (StorageNodeId, u64)| #[trigger]
                out@.contains(key) <==> old(out)@.contains(key) || records_use_log(
                    records@.take(next as int),
                    key,
                ),
        decreases records@.len() - next,
    {
        let ghost then = out@;
        let added = (records[next].run.storage_node, records[next].run.log_id);
        out.push(added);
        proof {
            let more = records@.take(next + 1);
            let less = records@.take(next as int);
            assert forall|key: (StorageNodeId, u64)| #[trigger]
                out@.contains(key) <==> old(out)@.contains(key) || records_use_log(more, key) by {
                lemma_pushed(then, added, key);
                if records_use_log(less, key) {
                    let i = choose|i: int|
                        0 <= i < less.len() && (#[trigger] less[i]).run.storage_node == key.0
                            && less[i].run.log_id == key.1;
                    assert(more[i].run.storage_node == key.0);
                }
                if key == added {
                    assert(more[next as int].run.storage_node == key.0);
                }
                if records_use_log(more, key) {
                    let i = choose|i: int|
                        0 <= i < more.len() && (#[trigger] more[i]).run.storage_node == key.0
                            && more[i].run.log_id == key.1;
                    if i < next {
                        assert(less[i].run.storage_node == key.0);
                    }
                }
            }
        }
        next = next + 1;
    }
    assert(records@.take(next as int) =~= records@);
}

pub open spec fn records_use_log(
    records: Seq<AppendStreamRunRecord>,
    key: (StorageNodeId, u64),
) -> bool {
    exists|i: int|
        0 <= i < records.len() && (#[trigger] records[i]).run.storage_node == key.0
            && records[i].run.log_id == key.1
}

/// Whether a node or an open stream uses a run log.
pub open spec fn log_used(
    nodes: Map<u128, MetadataNode>,
    streams: Map<u128, LiveAppendStream>,
    key: (StorageNodeId, u64),
) -> bool {
    ||| exists|id: u128| #[trigger] nodes.contains_key(id) && node_uses_log(nodes[id], key)
    ||| exists|id: u128| #[trigger] streams.contains_key(id) && stream_uses_log(streams[id], key)
}

/// The run logs that are used.
fn logs_used(nodes: &IdMap<MetadataNode>, streams: &IdMap<LiveAppendStream>) -> (keys: Vec<
    (StorageNodeId, u64),
>)
    ensures
        forall|key: (StorageNodeId, u64)| #[trigger]
            keys@.contains(key) <==> log_used(nodes@, streams@, key),
{
    let mut out: Vec<(StorageNodeId, u64)> = Vec::new();
    let count: usize = nodes.len();
    let ghost walk = nodes.keys();
    let mut next: usize = 0;
    while next < count
        invariant
            next <= count,
            count == walk.len(),
            walk == nodes.keys(),
            is_walk(walk, nodes@),
            forall|key: (StorageNodeId, u64)| #[trigger]
                out@.contains(key) <==> exists|i: int|
                    0 <= i < next && node_uses_log(nodes@[#[trigger] walk[i]], key),
        decreases count - next,
    {
        let ghost then = out@;
        let (id, node) = nodes.entry_at(next);
        assert(walk[next as int] == id);
        match &node.kind {
            MetadataNodeKind::Leaf { run_extents, .. } => add_extent_logs(run_extents, &mut out),
            MetadataNodeKind::Internal { .. } => {},
        }
        proof {
            assert forall|key: (StorageNodeId, u64)| #[trigger]
                out@.contains(key) <==> exists|i: int|
                    0 <= i < next + 1 && node_uses_log(nodes@[#[trigger] walk[i]], key) by {
                if then.contains(key) {
                    let i = choose|i: int|
                        0 <= i < next && node_uses_log(nodes@[#[trigger] walk[i]], key);
                    assert(node_uses_log(nodes@[walk[i]], key));
                }
                if node_uses_log(*node, key) {
                    assert(node_uses_log(nodes@[walk[next as int]], key));
                }
            }
        }
        next = next + 1;
    }
    let ghost by_nodes = out@;
    let stream_count: usize = streams.len();
    let ghost ids = streams.keys();
    let mut at: usize = 0;
    while at < stream_count
        invariant
            at <= stream_count,
            stream_count == ids.len(),
            ids == streams.keys(),
            is_walk(ids, streams@),
            forall|key: (StorageNodeId, u64)| #[trigger]
                out@.contains(key) <==> by_nodes.contains(key) || exists|i: int|
                    0 <= i < at && stream_uses_log(streams@[#[trigger] ids[i]], key),
        decreases stream_count - at,
    {
        let ghost then = out@;
        let (id, stream) = streams.entry_at(at);
        assert(ids[at as int] == id);
        let active = match stream.state.status {
            AppendStreamStatus::Active => true,
            _ => false,
        };
        if active {
            add_record_logs(&stream.state.records, &mut out);
        }
        proof {
            assert forall|key: (StorageNodeId, u64)| #[trigger]
                out@.contains(key) <==> by_nodes.contains(key) || exists|i: int|
                    0 <= i < at + 1 && stream_uses_log(streams@[#[trigger] ids[i]], key) by {
                if then.contains(key) && !by_nodes.contains(key) {
                    let i = choose|i: int|
                        0 <= i < at && stream_uses_log(streams@[#[trigger] ids[i]], key);
                    assert(stream_uses_log(streams@[ids[i]], key));
                }
                if stream_uses_log(*stream, key) {
                    assert(stream_uses_log(streams@[ids[at as int]], key));
                }
            }
        }
        at = at + 1;
    }
    proof {
        assert forall|key: (StorageNodeId, u64)| #[trigger]
            out@.contains(key) <==> log_used(nodes@, streams@, key) by {
            if by_nodes.contains(key) {
                let i = choose|i: int|
                    0 <= i < count && node_uses_log(nodes@[#[trigger] walk[i]], key);
                assert(nodes@.contains_key(walk[i]));
            } else if out@.contains(key) {
                let i = choose|i: int|
                    0 <= i < stream_count && stream_uses_log(streams@[#[trigger] ids[i]], key);
                assert(streams@.contains_key(ids[i]));
            }
            if exists|id: u128| #[trigger]
                nodes@.contains_key(id) && node_uses_log(nodes@[id], key) {
                let id = choose|id: u128| #[trigger]
                    nodes@.contains_key(id) && node_uses_log(nodes@[id], key);
                assert(walk.contains(id));
                let i = walk.index_of(id);
                assert(node_uses_log(nodes@[walk[i]], key));
            }
            if exists|id: u128| #[trigger]
                streams@.contains_key(id) && stream_uses_log(streams@[id], key) {
                let id = choose|id: u128| #[trigger]
                    streams@.contains_key(id) && stream_uses_log(streams@[id], key);
                assert(ids.contains(id));
                let i = ids.index_of(id);
                assert(stream_uses_log(streams@[ids[i]], key));
            }
        }
    }
    out
}

/// Fewer logs back what uses only those that are left.
proof fn lemma_logs_left(
    nodes: Map<u128, MetadataNode>,
    streams: Map<u128, LiveAppendStream>,
    next_stream_id: u128,
    before: RunLogMap,
    after: RunLogMap,
)
    requires
        tree_runs_backed(nodes, before),
        streams_wf(before, streams, next_stream_id),
        forall|key: (StorageNodeId, u64)|
            before.contains_key(key) && log_used(nodes, streams, key) ==> #[trigger]
                after.contains_key(key) && after[key] == before[key],
    ensures
        tree_runs_backed(nodes, after),
        streams_wf(after, streams, next_stream_id),
{
    assert forall|id: u128| #[trigger] nodes.contains_key(id) implies node_runs_backed(
        nodes[id],
        after,
    ) by {
        assert(node_runs_backed(nodes[id], before));
        match nodes[id].kind {
            MetadataNodeKind::Leaf { run_extents, .. } => {
                assert forall|i: int| 0 <= i < run_extents@.len() implies run_backed(
                    after,
                    #[trigger] run_extents@[i],
                ) by {
                    assert(run_backed(before, run_extents@[i]));
                    let key = (run_extents@[i].run.storage_node, run_extents@[i].run.log_id);
                    assert(extents_use_log(run_extents@, key));
                    assert(node_uses_log(nodes[id], key));
                    assert(after.contains_key(key));
                }
            },
            _ => {},
        }
    }
    assert forall|id: u128| #[trigger] streams.contains_key(id) implies id < next_stream_id
        && stream_wf(after, streams[id], id) by {
        let stream = streams[id];
        assert(stream_wf(before, stream, id));
        if stream.state.status == AppendStreamStatus::Active {
            assert forall|i: int| 0 <= i < stream.state.records@.len() implies stream_record_wf(
                after,
                #[trigger] stream.state.records@[i],
            ) by {
                let record = stream.state.records@[i];
                assert(stream_record_wf(before, record));
                let key = (record.run.storage_node, record.run.log_id);
                assert(records_use_log(stream.state.records@, key));
                assert(stream_uses_log(stream, key));
                assert(after.contains_key(key));
            }
        }
    }
}

/// Whether a list holds, in the order of their ids, just the segments that the
/// nodes named and no longer name.
pub open spec fn lists_unnamed(
    list: Seq<SegmentId>,
    before: Map<u128, MetadataNode>,
    after: Map<u128, MetadataNode>,
) -> bool {
    &&& ids_ascend(list)
    &&& forall|id: u128|
        #![trigger any_node_names(before, id)]
        #![trigger list.contains(SegmentId(id))]
        list.contains(SegmentId(id)) <==> any_node_names(before, id) && !any_node_names(after, id)
}

pub open spec fn ids_ascend(list: Seq<SegmentId>) -> bool {
    forall|i: int, j: int|
        0 <= i < j < list.len() ==> (#[trigger] list[i]).0 < (#[trigger] list[j]).0
}

/// A segment's record once a sweep has been over it.
pub open spec fn released_record(record: SegmentRecord, listed: bool) -> SegmentRecord {
    if listed && record.entry.state == SegmentLifecycleState::Referenced {
        SegmentRecord {
            entry: CatalogEntry { state: SegmentLifecycleState::Released, ..record.entry },
            ..record
        }
    } else {
        record
    }
}

impl StorageNodeRegistry {
    /// Whether the referenced ones among some segments were released and
    /// nothing else changed.
    pub open spec fn released_from(
        &self,
        before: &StorageNodeRegistry,
        list: Seq<SegmentId>,
    ) -> bool {
        &&& self.node_ids@ == before.node_ids@
        &&& self.next_segment_id == before.next_segment_id
        &&& self.next_placement_index == before.next_placement_index
        &&& self.next_offset == before.next_offset
        &&& self.segments@.dom() == before.segments@.dom()
        &&& forall|id: u128| #[trigger]
            before.segments@.contains_key(id) ==> self.segments@[id] == released_record(
                before.segments@[id],
                list.contains(SegmentId(id)),
            )
    }

    /// Those of some segments that are released, in their order.
    pub open spec fn released_among(&self, list: Seq<SegmentId>) -> Seq<SegmentId> {
        list.filter(
            |id: SegmentId|
                self.segments@.contains_key(id.0) && self.segments@[id.0].entry.state
                    == SegmentLifecycleState::Released,
        )
    }
}

impl LocalCoordinator {
    /// Whether every device and every file holds what it held.
    pub open spec fn contents_kept(&self, before: &LocalCoordinator) -> bool {
        &&& self.metadata.device_heads == before.metadata.device_heads
        &&& self.metadata.device_specs == before.metadata.device_specs
        &&& forall|d: DeviceId, byte: int|
            before.metadata.has_device(d) && 0 <= byte < before.device_bytes(d) ==> #[trigger]
                self.device_byte(d, byte) == before.device_byte(d, byte)
        &&& forall|k: KeyspaceId, f: FileId| #[trigger]
            self.metadata.file_head(k, f) == before.metadata.file_head(k, f)
        &&& forall|k: KeyspaceId, f: FileId, byte: int|
            before.metadata.has_file(k, f) ==> #[trigger] self.file_byte(k, f, byte)
                == before.file_byte(k, f, byte)
    }

    /// Whether every open stream has what it has taken in.
    pub open spec fn streams_kept(&self, before: &LocalCoordinator) -> bool {
        &&& self.metadata.append_streams == before.metadata.append_streams
        &&& forall|stream_id: AppendStreamId, byte: int|
            before.metadata.append_streams@.contains_key(stream_id.0)
                && before.metadata.append_streams@[stream_id.0].state.status
                == AppendStreamStatus::Active ==> #[trigger] self.stream_byte(stream_id, byte)
                == before.stream_byte(stream_id, byte)
    }

    /// Marks what the heads, the checkpoints and the kept history lead to.
    pub fn mark_reachable_for_gc(&mut self, policy: RetentionPolicy) -> (result: Result<
        MetadataMarkReport,
        StorageError,
    >)
        requires
            old(self).wf(),
        ensures
            final(self).wf(),
            *final(self) == (LocalCoordinator {
                metadata: final(self).metadata,
                ..*old(self)
            }),
            final(self).contents_kept(old(self)),
            final(self).metadata == (MetadataInner {
                metadata_last_mark_epoch: final(self).metadata.metadata_last_mark_epoch,
                segment_last_mark_epoch: final(self).metadata.segment_last_mark_epoch,
                next_gc_epoch: final(self).metadata.next_gc_epoch,
                ..old(self).metadata
            }),
            result is Ok <==> old(self).metadata.needed_roots_stored(policy.keep_history_from.0)
                && old(self).metadata.next_gc_epoch < u64::MAX,
            result matches Ok(report) ==> final(self).metadata.marked_from(
                &old(self).metadata,
                policy.keep_history_from.0,
                report,
            ),
            result matches Err(error) ==> *final(self) == *old(self) && (error is Conflict
                || error is NotFound),
    {
        let ghost before = *self;
        let ghost bs = before.block_size();
        let result = self.metadata.mark_reachable(policy, Ghost(bs));
        proof {
            assert(self.metadata.devices_wf(bs));
            assert(self.metadata.files_wf(bs));
        }
        result
    }

    /// Drops the run logs that nothing uses.
    fn retain_reachable_append_run_logs(&mut self)
        ensures
            *final(self) == (LocalCoordinator {
                append_run_logs: final(self).append_run_logs,
                ..*old(self)
            }),
            forall|key: (StorageNodeId, u64)| #[trigger]
                final(self).logs().contains_key(key) <==> old(self).logs().contains_key(key)
                    && log_used(old(self).nodes(), old(self).metadata.append_streams@, key),
            forall|key: (StorageNodeId, u64)| #[trigger]
                final(self).logs().contains_key(key) ==> final(self).logs()[key] == old(
                    self,
                ).logs()[key],
    {
        let keep = logs_used(&self.metadata.trees.nodes, &self.metadata.append_streams);
        self.append_run_logs.retain(&keep);
    }

    /// Takes out what a mark did not reach, and releases the segments that
    /// only this named.
    #[verifier::rlimit(60)]
    pub fn sweep_metadata_after_mark(&mut self, policy: RetentionPolicy, epoch: u64) -> (result:
        Result<MetadataSweepReport, StorageError>)
        requires
            old(self).wf(),
        ensures
            final(self).wf(),
            final(self).config == old(self).config,
            final(self).contents_kept(old(self)),
            *final(self) == (LocalCoordinator {
                metadata: final(self).metadata,
                storage_nodes: final(self).storage_nodes,
                append_run_logs: final(self).append_run_logs,
                ..*old(self)
            }),
            result is Ok <==> old(self).metadata.sweeps(policy, epoch),
            result matches Ok(report) ==> {
                &&& report.epoch == epoch
                &&& final(self).metadata.swept_from(
                    &old(self).metadata,
                    policy.keep_history_from.0,
                )
                &&& final(self).metadata.nodes_swept(
                    &old(self).metadata,
                    policy.keep_history_from.0,
                    epoch,
                )
                &&& lists_unnamed(report.released_segments@, old(self).nodes(), final(self).nodes())
                &&& final(self).storage_nodes.released_from(
                    &old(self).storage_nodes,
                    report.released_segments@,
                )
                &&& forall|key: (StorageNodeId, u64)| #[trigger]
                    final(self).logs().contains_key(key) <==> old(self).logs().contains_key(key)
                        && log_used(
                        final(self).nodes(),
                        final(self).metadata.append_streams@,
                        key,
                    )
                &&& forall|key: (StorageNodeId, u64)| #[trigger]
                    final(self).logs().contains_key(key) ==> final(self).logs()[key] == old(
                        self,
                    ).logs()[key]
                &&& final(self).streams_kept(old(self))
            },
            result matches Err(error) ==> *final(self) == *old(self) && (error is Conflict
                || error is NotFound),
    {
        let ghost before = *self;
        let ghost bs = before.block_size();
        let released = match self.metadata.sweep_unmarked_after_mark(policy, epoch, Ghost(bs)) {
            Ok(released) => released,
            Err(error) => return Err(error),
        };
        let ghost swept = *self;
        self.retain_reachable_append_run_logs();
        proof {
            assert forall|id: u128| #[trigger] self.nodes().contains_key(id) implies node_runs_backed(
                self.nodes()[id],
                before.logs(),
            ) && node_backed(self.nodes()[id], before.segments()) by {
                assert(before.nodes().contains_key(id));
            }
            lemma_logs_left(
                self.nodes(),
                self.metadata.append_streams@,
                self.metadata.next_append_stream_id,
                before.logs(),
                self.logs(),
            );
        }
        let ghost trimmed = *self;
        let block_size = self.config.block_size as u64;
        let mut next: usize = 0;
        while next < released.len()
            invariant
                next <= released@.len(),
                block_size == bs,
                bs == before.block_size(),
                *self == (LocalCoordinator { storage_nodes: self.storage_nodes, ..trimmed }),
                self.storage_nodes.wf(bs),
                trimmed.storage_nodes == before.storage_nodes,
                keeps_segments(before.segments(), self.segments()),
                keeps_segments(self.segments(), before.segments()),
                self.storage_nodes.released_from(
                    &before.storage_nodes,
                    released@.take(next as int),
                ),
            decreases released@.len() - next,
        {
            let id = released[next];
            let referenced = match self.storage_nodes.segments.get(id.raw()) {
                Some(record) => match record.entry.state {
                    SegmentLifecycleState::Referenced => true,
                    _ => false,
                },
                None => false,
            };
            let ghost then = *self;
            if referenced {
                match self.storage_nodes.release_segment(id, block_size) {
                    Ok(()) => {},
                    Err(_) => {},
                }
            }
            proof {
                let less = released@.take(next as int);
                let more = released@.take(next + 1);
                assert(more =~= less.push(id));
                assert forall|k: u128| #[trigger] before.segments().contains_key(k) implies
                    self.segments().contains_key(k) && self.segments()[k] == released_record(
                    before.segments()[k],
                    more.contains(SegmentId(k)),
                ) by {
                    lemma_pushed(less, id, SegmentId(k));
                    assert(then.segments().contains_key(k));
                }
            }
            next = next + 1;
        }
        proof {
            assert(released@.take(next as int) =~= released@);
            assert(tree_backed(self.nodes(), self.segments())) by {
                assert forall|id: u128| #[trigger] self.nodes().contains_key(id) implies node_backed(
                    self.nodes()[id],
                    self.segments(),
                ) by {
                    assert(node_backed(self.nodes()[id], before.segments()));
                }
            }
            assert(self.wf());
            lemma_contents_kept(before, *self, policy.keep_history_from.0);
            assert forall|stream_id: AppendStreamId, byte: int|
                before.metadata.append_streams@.contains_key(stream_id.0)
                    && before.metadata.append_streams@[stream_id.0].state.status
                    == AppendStreamStatus::Active implies #[trigger] self.stream_byte(
                stream_id,
                byte,
            ) == before.stream_byte(stream_id, byte) by {
                assert(stream_wf(
                    self.logs(),
                    self.metadata.append_streams@[stream_id.0],
                    stream_id.0,
                ));
                lemma_records_byte_left(
                    before.logs(),
                    self.logs(),
                    before.metadata.append_streams@[stream_id.0].state.records@,
                    byte,
                );
            }
        }
        Ok(MetadataSweepReport { epoch, released_segments: released })
    }

    /// Marks, sweeps, and says which of the swept segments are now released.
    pub fn run_metadata_custodian(&mut self, policy: RetentionPolicy) -> (result: Result<
        MetadataCustodianReport,
        StorageError,
    >)
        requires
            old(self).wf(),
        ensures
            final(self).wf(),
            final(self).contents_kept(old(self)),
            result is Ok <==> old(self).metadata.needed_roots_stored(policy.keep_history_from.0)
                && old(self).metadata.next_gc_epoch < u64::MAX && old(
                self,
            ).metadata.append_publish_in_flight@ == Map::<u128, AppendPublishInFlight>::empty(),
            result matches Ok(report) ==> {
                &&& report.mark.epoch == old(self).metadata.next_gc_epoch
                &&& report.sweep.epoch == report.mark.epoch
                &&& final(self).metadata.custodian_ran_from(
                    &old(self).metadata,
                    policy.keep_history_from.0,
                )
                &&& final(self).metadata.nodes_swept(
                    &old(self).metadata,
                    policy.keep_history_from.0,
                    report.mark.epoch,
                )
                &&& report.mark.reachable_nodes == Set::<u128>::new(
                    |id: u128| old(self).metadata.needs_node(policy.keep_history_from.0, id),
                ).len()
                &&& report.mark.reachable_segments == Set::<u128>::new(
                    |id: u128| old(self).metadata.needs_segment(policy.keep_history_from.0, id),
                ).len()
                &&& lists_unnamed(
                    report.sweep.released_segments@,
                    old(self).nodes(),
                    final(self).nodes(),
                )
                &&& final(self).storage_nodes.released_from(
                    &old(self).storage_nodes,
                    report.sweep.released_segments@,
                )
                &&& report.catalog_released_segments@ == final(self).storage_nodes.released_among(
                    report.sweep.released_segments@,
                )
                &&& forall|key: (StorageNodeId, u64)| #[trigger]
                    final(self).logs().contains_key(key) <==> old(self).logs().contains_key(key)
                        && log_used(
                        final(self).nodes(),
                        final(self).metadata.append_streams@,
                        key,
                    )
                &&& forall|key: (StorageNodeId, u64)| #[trigger]
                    final(self).logs().contains_key(key) ==> final(self).logs()[key] == old(
                        self,
                    ).logs()[key]
                &&& final(self).streams_kept(old(self))
                &&& final(self).observability.counters == counted(
                    old(self).observability.counters,
                    StorageEventKind::MetadataCustodianRan,
                )
            },
            *final(self) == (LocalCoordinator {
                metadata: final(self).metadata,
                storage_nodes: final(self).storage_nodes,
                append_run_logs: final(self).append_run_logs,
                observability: final(self).observability,
                ..*old(self)
            }),
            result matches Err(error) ==> (error is Conflict || error is NotFound)
                && final(self).storage_nodes == old(self).storage_nodes
                && final(self).append_run_logs == old(self).append_run_logs
                && final(self).observability == old(self).observability
                && final(self).metadata == (MetadataInner {
                metadata_last_mark_epoch: final(self).metadata.metadata_last_mark_epoch,
                segment_last_mark_epoch: final(self).metadata.segment_last_mark_epoch,
                next_gc_epoch: final(self).metadata.next_gc_epoch,
                ..old(self).metadata
            }),
    {
        let ghost before = *self;
        let mark = match self.mark_reachable_for_gc(policy) {
            Ok(mark) => mark,
            Err(error) => {
                return Err(error);
            },
        };
        let ghost marked = *self;
        proof {
            let from = policy.keep_history_from.0;
            assert forall|id: u128| #[trigger] self.metadata.needs_root(from, id) implies
                self.nodes().contains_key(id) by {
                assert(before.metadata.needs_root(from, id));
            }
        }
        let sweep = match self.sweep_metadata_after_mark(policy, mark.epoch) {
            Ok(sweep) => sweep,
            Err(error) => {
                return Err(error);
            },
        };
        let ghost swept = *self;
        let mut found: Vec<SegmentId> = Vec::new();
        let mut next: usize = 0;
        while next < sweep.released_segments.len()
            invariant
                next <= sweep.released_segments@.len(),
                *self == swept,
                found@ == swept.storage_nodes.released_among(
                    sweep.released_segments@.take(next as int),
                ),
            decreases sweep.released_segments@.len() - next,
        {
            let id = sweep.released_segments[next];
            let released = match self.storage_nodes.segments.get(id.raw()) {
                Some(record) => match record.entry.state {
                    SegmentLifecycleState::Released => true,
                    _ => false,
                },
                None => false,
            };
            if released {
                found.push(id);
            }
            proof {
                let less = sweep.released_segments@.take(next as int);
                let more = sweep.released_segments@.take(next + 1);
                assert(more =~= less.push(id));
                assert(more.drop_last() =~= less);
                reveal(Seq::filter);
            }
            next = next + 1;
        }
        self.record_event(StorageEventKind::MetadataCustodianRan, None, None, None);
        proof {
            assert(sweep.released_segments@.take(next as int) =~= sweep.released_segments@);
            let from = policy.keep_history_from.0;
            let base = MetadataInner {
                metadata_last_mark_epoch: self.metadata.metadata_last_mark_epoch,
                segment_last_mark_epoch: self.metadata.segment_last_mark_epoch,
                next_gc_epoch: self.metadata.next_gc_epoch,
                ..before.metadata
            };
            assert forall|id: u128| #[trigger] base.needs_shard(from, id)
                == marked.metadata.needs_shard(from, id) by {}
            assert forall|id: u128| #[trigger] base.needs_root(from, id) implies
                marked.metadata.needs_root(from, id) by {
                if base.needed_shard_names(from, id) {
                    assert(marked.metadata.needed_shard_names(from, id));
                }
            }
            assert forall|id: u128| #[trigger] base.needs_node(from, id) implies
                self.nodes().contains_key(id) by {
                let root = choose|root: u128| #[trigger]
                    base.needs_root(from, root) && reaches(base.nodes(), root, id);
                assert(marked.metadata.needs_root(from, root));
                assert(marked.metadata.needs_node(from, id));
            }
            assert((|id: u128| base.needs_shard(from, id)) =~= (|id: u128|
                marked.metadata.needs_shard(from, id)));
            assert(self.metadata.swept_from(&base, from));
            lemma_swept_of_marked(
                before.metadata,
                marked.metadata,
                self.metadata,
                from,
                mark,
            );
            assert forall|stream_id: AppendStreamId, byte: int|
                before.metadata.append_streams@.contains_key(stream_id.0)
                    && before.metadata.append_streams@[stream_id.0].state.status
                    == AppendStreamStatus::Active implies #[trigger] self.stream_byte(
                stream_id,
                byte,
            ) == before.stream_byte(stream_id, byte) by {
                assert(swept.stream_byte(stream_id, byte) == marked.stream_byte(stream_id, byte));
            }
            assert forall|k: KeyspaceId, f: FileId, byte: int|
                before.metadata.has_file(k, f) implies #[trigger] self.file_byte(k, f, byte)
                == before.file_byte(k, f, byte) by {
                assert(marked.metadata.has_file(k, f));
                assert(swept.file_byte(k, f, byte) == marked.file_byte(k, f, byte));
                assert(marked.file_byte(k, f, byte) == before.file_byte(k, f, byte));
            }
            assert forall|d: DeviceId, byte: int|
                before.metadata.has_device(d) && 0 <= byte < before.device_bytes(d) implies
                #[trigger] self.device_byte(d, byte) == before.device_byte(d, byte) by {
                assert(marked.device_byte(d, byte) == before.device_byte(d, byte));
                assert(swept.device_byte(d, byte) == marked.device_byte(d, byte));
            }
            assert forall|k: KeyspaceId, f: FileId| #[trigger]
                self.metadata.file_head(k, f) == before.metadata.file_head(k, f) by {
                assert(marked.metadata.file_head(k, f) == before.metadata.file_head(k, f));
                assert(swept.metadata.file_head(k, f) == marked.metadata.file_head(k, f));
            }
        }
        Ok(
            MetadataCustodianReport { mark, sweep, catalog_released_segments: found },
        )
    }
}

/// What a stream has in logs that are left stays.
proof fn lemma_records_byte_left(
    before: RunLogMap,
    after: RunLogMap,
    records: Seq<AppendStreamRunRecord>,
    byte: int,
)
    requires
        forall|i: int| 0 <= i < records.len() ==> stream_record_wf(after, #[trigger] records[i]),
        forall|key: (StorageNodeId, u64)| #[trigger]
            after.contains_key(key) ==> after[key] == before[key],
    ensures
        records_byte(after, records, byte) == records_byte(before, records, byte),
    decreases records.len(),
{
    if records.len() > 0 {
        let last = records.last();
        assert(records[records.len() - 1] == last);
        assert(stream_record_wf(after, last));
        assert(after.contains_key((last.run.storage_node, last.run.log_id)));
        let shorter = records.drop_last();
        assert forall|i: int| 0 <= i < shorter.len() implies stream_record_wf(
            after,
            #[trigger] shorter[i],
        ) by {
            assert(stream_record_wf(after, records[i]));
        }
        lemma_records_byte_left(before, after, shorter, byte);
    }
}

/// A sweep leaves every device and every file with what it held.
#[verifier::rlimit(60)]
#[verifier::spinoff_prover]
proof fn lemma_contents_kept(before: LocalCoordinator, after: LocalCoordinator, from: u64)
    requires
        before.wf(),
        after.wf(),
        after.config == before.config,
        after.metadata.swept_from(&before.metadata, from),
        before.metadata.needed_roots_stored(from),
        keeps_segments(before.segments(), after.segments()),
        forall|key: (StorageNodeId, u64)| #[trigger]
            after.logs().contains_key(key) ==> after.logs()[key] == before.logs()[key],
    ensures
        after.contents_kept(&before),
{
    let bs = before.block_size();
    assert forall|d: DeviceId, byte: int|
        before.metadata.has_device(d) && 0 <= byte < before.device_bytes(d) implies #[trigger]
        after.device_byte(d, byte) == before.device_byte(d, byte) by {
        let roots = before.metadata.roots_of(d);
        let blocks = before.metadata.blocks_of(d);
        let block = byte / bs as int;
        assert(before.metadata.device_heads@.contains_key(d.0));
        assert(crate::metadata::head_wf(
            before.nodes(),
            before.metadata.device_specs@,
            before.metadata.device_heads@[d.0],
            d.0,
            bs,
        ));
        assert(0 <= block < blocks) by (nonlinear_arith)
            requires
                block == byte / bs as int,
                0 <= byte < blocks * bs,
                bs > 0,
        ;
        assert forall|s: int, n: u128|
            #![trigger roots[s], reaches(before.nodes(), roots[s].0, n)]
            0 <= s < roots.len() && reaches(before.nodes(), roots[s].0, n) implies
            after.nodes().contains_key(n) && after.nodes()[n] == before.nodes()[n] by {
            let root = roots[s].0;
            assert(lists_node(roots, root));
            assert(before.metadata.device_heads@[d.0].names(NameKind::Root, root));
            assert(map_names(before.metadata.device_heads@, NameKind::Root, root));
            assert(before.metadata.needs_root(from, root));
            assert(before.metadata.needs_node(from, n));
        }
        lemma_device_kept_below(before.nodes(), after.nodes(), bs, roots, blocks);
        let held = device_block_at(before.nodes(), roots, block);
        if held is Some {
            crate::backing::lemma_device_block_stored(
                before.nodes(),
                before.segments(),
                roots,
                block,
            );
        }
        crate::backing::lemma_stored_byte_kept(
            before.segments(),
            after.segments(),
            held,
            bs,
            byte,
        );
    }
    assert forall|k: KeyspaceId, f: FileId| #[trigger]
        after.metadata.file_head(k, f) == before.metadata.file_head(k, f) by {
        if before.metadata.has_keyspace(k) {
            lemma_catalog_kept(before, after, from, k, f);
        }
    }
    assert forall|k: KeyspaceId, f: FileId, byte: int|
        before.metadata.has_file(k, f) implies #[trigger] after.file_byte(k, f, byte)
        == before.file_byte(k, f, byte) by {
        lemma_catalog_kept(before, after, from, k, f);
        let root = before.metadata.file_head(k, f)->0.root;
        before.metadata.lemma_file_wf(k, f, bs);
        assert forall|n: u128| #[trigger] reaches(before.nodes(), root.0, n) implies
            after.nodes().contains_key(n) && after.nodes()[n] == before.nodes()[n] by {
            assert(before.metadata.needs_root(from, root.0));
            assert(before.metadata.needs_node(from, n));
        }
        lemma_kept_below(before.nodes(), after.nodes(), root.0, bs);
        let logged = run_at(before.nodes(), root.0, bs, byte);
        if logged is Some {
            assert(run_at(after.nodes(), root.0, bs, byte) == logged);
            crate::backing::lemma_run_logged(after.nodes(), after.logs(), root.0, bs, byte);
        } else {
            let held = block_at(before.nodes(), root.0, byte / bs as int);
            if held is Some {
                crate::backing::lemma_block_stored(
                    before.nodes(),
                    before.segments(),
                    root.0,
                    byte / bs as int,
                );
            }
            crate::backing::lemma_stored_byte_kept(
                before.segments(),
                after.segments(),
                held,
                bs,
                byte,
            );
        }
    }
}

proof fn lemma_catalog_kept(
    before: LocalCoordinator,
    after: LocalCoordinator,
    from: u64,
    k: KeyspaceId,
    f: FileId,
)
    requires
        before.wf(),
        after.metadata.swept_from(&before.metadata, from),
        before.metadata.has_keyspace(k),
    ensures
        after.metadata.file_head(k, f) == before.metadata.file_head(k, f),
        before.metadata.has_file(k, f) ==> before.metadata.needs_root(
            from,
            before.metadata.file_head(k, f)->0.root.0,
        ),
{
    let roots = before.metadata.catalog_of(k);
    assert(before.metadata.keyspace_heads@.contains_key(k.0));
    let at = crate::metadata_files::catalog_index(f, roots.len() as int);
    assert(0 <= at < roots.len());
    let shard = roots[at].0;
    assert(crate::export_rows::lists_shard(roots, shard));
    assert(before.metadata.keyspace_heads@[k.0].names(NameKind::Shard, shard));
    assert(map_names(before.metadata.keyspace_heads@, NameKind::Shard, shard));
    assert(before.metadata.needs_shard(from, shard));
    assert(before.metadata.keyspace_catalog_shards@.contains_key(shard));
    assert(after.metadata.keyspace_catalog_shards@.contains_key(shard));
    if before.metadata.has_file(k, f) {
        let root = before.metadata.file_head(k, f)->0.root.0;
        assert(before.metadata.keyspace_catalog_shards@[shard].files@.contains_key(f.0));
        assert(before.metadata.keyspace_catalog_shards@[shard].names(NameKind::Root, root));
        assert(before.metadata.needed_shard_names(from, root));
    }
}

/// Why a storage node gives a segment up.
#[derive(Clone, Copy, Debug, PartialEq, Eq, Structural)]
pub enum Disposal {
    /// A reservation whose write intent expired.
    Expired,
    /// A write that was never finished.
    Failed,
    /// A written segment that no commit took.
    Orphaned,
    /// A segment that the metadata released.
    Deleted,
}

/// Why, if at all, a segment is given up once some write intents are over.
pub open spec fn disposal_of(record: SegmentRecord, expired: Seq<WriteIntentId>) -> Option<
    Disposal,
> {
    let over = expired.contains(record.entry.intent.write_intent);
    match record.entry.state {
        SegmentLifecycleState::Reserved => if over {
            Some(Disposal::Expired)
        } else {
            None
        },
        SegmentLifecycleState::Writing => if over {
            Some(Disposal::Failed)
        } else {
            None
        },
        SegmentLifecycleState::DurablePendingMetadata => if over {
            Some(Disposal::Orphaned)
        } else {
            None
        },
        SegmentLifecycleState::Released => Some(Disposal::Deleted),
        _ => None,
    }
}

fn is_over(expired: &Vec<WriteIntentId>, intent: WriteIntentId) -> (over: bool)
    ensures
        over == expired@.contains(intent),
{
    let mut next: usize = 0;
    while next < expired.len()
        invariant
            next <= expired@.len(),
            forall|i: int| 0 <= i < next ==> #[trigger] expired@[i] != intent,
        decreases expired@.len() - next,
    {
        if expired[next].0 == intent.0 {
            assert(expired@[next as int] == intent);
            return true;
        }
        next = next + 1;
    }
    false
}

fn disposal(record: &SegmentRecord, expired: &Vec<WriteIntentId>) -> (why: Option<Disposal>)
    ensures
        why == disposal_of(*record, expired@),
{
    match record.entry.state {
        SegmentLifecycleState::Released => Some(Disposal::Deleted),
        SegmentLifecycleState::Referenced => None,
        SegmentLifecycleState::Freed => None,
        _ => {
            if !is_over(expired, record.entry.intent.write_intent) {
                return None;
            }
            match record.entry.state {
                SegmentLifecycleState::Reserved => Some(Disposal::Expired),
                SegmentLifecycleState::Writing => Some(Disposal::Failed),
                _ => Some(Disposal::Orphaned),
            }
        },
    }
}

/// Whether a segment that nothing maps is given up for a reason.
pub open spec fn given_up(
    segments: Map<u128, SegmentRecord>,
    nodes: Map<u128, MetadataNode>,
    expired: Seq<WriteIntentId>,
    why: Disposal,
    id: u128,
) -> bool {
    &&& segments.contains_key(id)
    &&& !any_node_names(nodes, id)
    &&& disposal_of(segments[id], expired) == Some(why)
}

/// Where a storage node stands in the list of the nodes, or how many there are
/// where it does not.
pub open spec fn node_place(node_ids: Seq<StorageNodeId>, node: StorageNodeId) -> int
    decreases node_ids.len(),
{
    if node_ids.len() == 0 || node_ids[0] == node {
        0
    } else {
        1 + node_place(node_ids.drop_first(), node)
    }
}

proof fn lemma_node_place(node_ids: Seq<StorageNodeId>, node: StorageNodeId, place: int)
    requires
        0 <= place <= node_ids.len(),
        forall|i: int| 0 <= i < place ==> #[trigger] node_ids[i] != node,
        place == node_ids.len() || node_ids[place] == node,
    ensures
        node_place(node_ids, node) == place,
    decreases place,
{
    if place > 0 {
        assert(node_ids[0] != node);
        assert forall|i: int| 0 <= i < place - 1 implies #[trigger] node_ids.drop_first()[i]
            != node by {
            assert(node_ids[i + 1] != node);
        }
        lemma_node_place(node_ids.drop_first(), node, place - 1);
    }
}

fn place_of(node_ids: &Vec<StorageNodeId>, node: StorageNodeId) -> (place: usize)
    ensures
        place == node_place(node_ids@, node),
        place <= node_ids@.len(),
{
    let mut next: usize = 0;
    while next < node_ids.len()
        invariant
            next <= node_ids@.len(),
            forall|i: int| 0 <= i < next ==> #[trigger] node_ids@[i] != node,
        decreases node_ids@.len() - next,
    {
        if node_ids[next].0 == node.0 {
            proof {
                lemma_node_place(node_ids@, node, next as int);
            }
            return next;
        }
        next = next + 1;
    }
    proof {
        lemma_node_place(node_ids@, node, next as int);
    }
    next
}

/// Whether a list goes through the nodes one after the other, and on each
/// through its segments in the order of their ids.
pub open spec fn in_node_order(
    list: Seq<SegmentId>,
    segments: Map<u128, SegmentRecord>,
    node_ids: Seq<StorageNodeId>,
) -> bool {
    forall|i: int, j: int|
        0 <= i < j < list.len() ==> {
            let first = node_place(
                node_ids,
                segments[(#[trigger] list[i]).0].storage_node,
            );
            let second = node_place(
                node_ids,
                segments[(#[trigger] list[j]).0].storage_node,
            );
            first < second || first == second && list[i].0 < list[j].0
        }
}

/// Whether a list holds just the segments that are given up for a reason, node
/// by node.
pub open spec fn lists_given_up(
    list: Seq<SegmentId>,
    segments: Map<u128, SegmentRecord>,
    node_ids: Seq<StorageNodeId>,
    nodes: Map<u128, MetadataNode>,
    expired: Seq<WriteIntentId>,
    why: Disposal,
) -> bool {
    &&& in_node_order(list, segments, node_ids)
    &&& forall|id: u128|
        #![trigger list.contains(SegmentId(id))]
        #![trigger segments.contains_key(id)]
        list.contains(SegmentId(id)) <==> given_up(segments, nodes, expired, why, id)
}

/// The segments of one node that are given up for a reason.
fn collect_on_node(
    segments: &IdMap<SegmentRecord>,
    node_ids: &Vec<StorageNodeId>,
    place: usize,
    named: &IdMap<()>,
    expired: &Vec<WriteIntentId>,
    why: Disposal,
    nodes: Ghost<Map<u128, MetadataNode>>,
) -> (list: Vec<SegmentId>)
    requires
        forall|id: u128| #[trigger] named@.contains_key(id) <==> any_node_names(nodes@, id),
    ensures
        forall|i: int, j: int|
            0 <= i < j < list@.len() ==> (#[trigger] list@[i]).0 < (#[trigger] list@[j]).0,
        forall|id: u128|
            #![trigger list@.contains(SegmentId(id))]
            #![trigger segments@.contains_key(id)]
            list@.contains(SegmentId(id)) <==> given_up(segments@, nodes@, expired@, why, id)
                && node_place(node_ids@, segments@[id].storage_node) == place,
{
    let mut list: Vec<SegmentId> = Vec::new();
    let count: usize = segments.len();
    let ghost keys = segments.keys();
    let ghost wanted_here = |id: u128|
        given_up(segments@, nodes@, expired@, why, id) && node_place(
            node_ids@,
            segments@[id].storage_node,
        ) == place;
    let mut next: usize = 0;
    while next < count
        invariant
            next <= count,
            count == keys.len(),
            keys == segments.keys(),
            is_walk(keys, segments@),
            forall|id: u128| #[trigger] named@.contains_key(id) <==> any_node_names(nodes@, id),
            wanted_here == (|id: u128|
                given_up(segments@, nodes@, expired@, why, id) && node_place(
                    node_ids@,
                    segments@[id].storage_node,
                ) == place),
            forall|i: int, j: int|
                0 <= i < j < list@.len() ==> (#[trigger] list@[i]).0 < (#[trigger] list@[j]).0,
            forall|i: int|
                0 <= i < list@.len() ==> keys.take(next as int).contains((#[trigger] list@[i]).0),
            forall|id: u128|
                list@.contains(SegmentId(id)) <==> #[trigger] keys.take(next as int).contains(id)
                    && wanted_here(id),
        decreases count - next,
    {
        let ghost then = list@;
        assert(forall|k: u128|
            then.contains(SegmentId(k)) <==> (#[trigger] keys.take(next as int).contains(k)
                && wanted_here(k)));
        let (id, record) = segments.entry_at(next);
        let found = match disposal(record, expired) {
            Some(reason) => reason == why,
            None => false,
        };
        let here = place_of(node_ids, record.storage_node) == place;
        let wanted = found && here && !named.contains_key(id);
        if wanted {
            list.push(SegmentId(id));
        }
        proof {
            crate::export_rows::lemma_taken(keys, next as int);
            assert(wanted == wanted_here(id));
            assert forall|i: int| 0 <= i < then.len() implies (#[trigger] then[i]).0 < id by {
                let before = keys.take(next as int);
                let at = before.index_of(then[i].0);
                assert(keys[at] == then[i].0);
            }
            assert forall|i: int| 0 <= i < list@.len() implies keys.take(next + 1).contains(
                (#[trigger] list@[i]).0,
            ) by {
                if i < then.len() {
                    assert(list@[i] == then[i]);
                    assert(keys.take(next as int).contains(then[i].0));
                }
            }
            assert forall|k: u128|
                list@.contains(SegmentId(k)) <==> #[trigger] keys.take(next + 1).contains(k)
                    && wanted_here(k) by {
                lemma_pushed(then, SegmentId(id), SegmentId(k));
                assert(then.contains(SegmentId(k)) <==> keys.take(next as int).contains(k)
                    && wanted_here(k));
            }
        }
        next = next + 1;
    }
    proof {
        assert(keys.take(next as int) =~= keys);
        assert forall|id: u128|
            #![trigger list@.contains(SegmentId(id))]
            #![trigger segments@.contains_key(id)]
            list@.contains(SegmentId(id)) <==> given_up(segments@, nodes@, expired@, why, id)
                && node_place(node_ids@, segments@[id].storage_node) == place by {
            assert(keys.take(next as int).contains(id) <==> segments@.contains_key(id));
        }
    }
    list
}

fn collect_given_up(
    segments: &IdMap<SegmentRecord>,
    node_ids: &Vec<StorageNodeId>,
    named: &IdMap<()>,
    expired: &Vec<WriteIntentId>,
    why: Disposal,
    nodes: Ghost<Map<u128, MetadataNode>>,
) -> (list: Vec<SegmentId>)
    requires
        forall|id: u128| #[trigger] named@.contains_key(id) <==> any_node_names(nodes@, id),
    ensures
        lists_given_up(list@, segments@, node_ids@, nodes@, expired@, why),
{
    let mut list: Vec<SegmentId> = collect_on_node(
        segments,
        node_ids,
        0,
        named,
        expired,
        why,
        nodes,
    );
    let mut place: usize = 0;
    proof {
        assert forall|i: int| 0 <= i < list@.len() implies given_up(
            segments@,
            nodes@,
            expired@,
            why,
            (#[trigger] list@[i]).0,
        ) && node_place(node_ids@, segments@[list@[i].0].storage_node) <= 0 by {
            assert(list@[i] == SegmentId(list@[i].0));
            assert(list@.contains(SegmentId(list@[i].0)));
        }
        assert forall|id: u128|
            #![trigger list@.contains(SegmentId(id))]
            list@.contains(SegmentId(id)) <==> given_up(segments@, nodes@, expired@, why, id)
                && node_place(node_ids@, segments@[id].storage_node) <= 0 by {
            lemma_place_bound(node_ids@, segments@[id].storage_node);
        }
    }
    while place < node_ids.len()
        invariant
            place <= node_ids@.len(),
            forall|id: u128| #[trigger] named@.contains_key(id) <==> any_node_names(nodes@, id),
            in_node_order(list@, segments@, node_ids@),
            forall|i: int|
                0 <= i < list@.len() ==> node_place(
                    node_ids@,
                    segments@[(#[trigger] list@[i]).0].storage_node,
                ) <= place,
            forall|id: u128|
                #![trigger list@.contains(SegmentId(id))]
                list@.contains(SegmentId(id)) <==> given_up(segments@, nodes@, expired@, why, id)
                    && node_place(node_ids@, segments@[id].storage_node) <= place,
        decreases node_ids@.len() - place,
    {
        place = place + 1;
        let ghost then = list@;
        let mut more = collect_on_node(segments, node_ids, place, named, expired, why, nodes);
        let ghost added = more@;
        list.append(&mut more);
        proof {
            assert(list@ == then + added);
            assert forall|i: int| 0 <= i < added.len() implies node_place(
                node_ids@,
                segments@[(#[trigger] added[i]).0].storage_node,
            ) == place by {
                assert(added[i] == SegmentId(added[i].0));
                assert(added.contains(SegmentId(added[i].0)));
            }
            assert forall|i: int, j: int| 0 <= i < j < list@.len() implies {
                let first = node_place(
                    node_ids@,
                    segments@[(#[trigger] list@[i]).0].storage_node,
                );
                let second = node_place(
                    node_ids@,
                    segments@[(#[trigger] list@[j]).0].storage_node,
                );
                first < second || first == second && list@[i].0 < list@[j].0
            } by {
                if j < then.len() {
                    assert(list@[i] == then[i] && list@[j] == then[j]);
                } else {
                    assert(list@[j] == added[j - then.len()]);
                    if i < then.len() {
                        assert(list@[i] == then[i]);
                    } else {
                        assert(list@[i] == added[i - then.len()]);
                    }
                }
            }
            assert forall|i: int| 0 <= i < list@.len() implies node_place(
                node_ids@,
                segments@[(#[trigger] list@[i]).0].storage_node,
            ) <= place by {
                if i < then.len() {
                    assert(list@[i] == then[i]);
                } else {
                    assert(list@[i] == added[i - then.len()]);
                }
            }
            assert forall|id: u128|
                #![trigger list@.contains(SegmentId(id))]
                list@.contains(SegmentId(id)) <==> given_up(segments@, nodes@, expired@, why, id)
                    && node_place(node_ids@, segments@[id].storage_node) <= place by {
                let item = SegmentId(id);
                if then.contains(item) {
                    assert(list@[then.index_of(item)] == item);
                }
                if added.contains(item) {
                    assert(list@[then.len() + added.index_of(item)] == item);
                }
                if list@.contains(item) {
                    let at = list@.index_of(item);
                    if at < then.len() {
                        assert(then[at] == item);
                    } else {
                        assert(added[at - then.len()] == item);
                    }
                }
            }
        }
    }
    proof {
        assert forall|id: u128|
            #![trigger list@.contains(SegmentId(id))]
            #![trigger segments@.contains_key(id)]
            list@.contains(SegmentId(id)) <==> given_up(segments@, nodes@, expired@, why, id) by {
            lemma_place_bound(node_ids@, segments@[id].storage_node);
        }
    }
    list
}

proof fn lemma_place_bound(node_ids: Seq<StorageNodeId>, node: StorageNodeId)
    ensures
        0 <= node_place(node_ids, node) <= node_ids.len(),
    decreases node_ids.len(),
{
    if node_ids.len() > 0 && node_ids[0] != node {
        lemma_place_bound(node_ids.drop_first(), node);
    }
}

/// The segments that are not given up.
fn collect_kept(
    segments: &IdMap<SegmentRecord>,
    named: &IdMap<()>,
    expired: &Vec<WriteIntentId>,
) -> (kept: IdMap<()>)
    ensures
        forall|id: u128| #[trigger]
            kept@.contains_key(id) <==> segments@.contains_key(id) && (named@.contains_key(id)
                || disposal_of(segments@[id], expired@) is None),
{
    let mut kept: IdMap<()> = IdMap::new();
    let count: usize = segments.len();
    let ghost keys = segments.keys();
    let mut next: usize = 0;
    while next < count
        invariant
            next <= count,
            count == keys.len(),
            keys == segments.keys(),
            is_walk(keys, segments@),
            forall|id: u128| #[trigger]
                kept@.contains_key(id) <==> keys.take(next as int).contains(id) && (
                named@.contains_key(id) || disposal_of(segments@[id], expired@) is None),
        decreases count - next,
    {
        let (id, record) = segments.entry_at(next);
        if named.contains_key(id) || disposal(record, expired).is_none() {
            kept.insert(id, ());
        }
        proof {
            crate::export_rows::lemma_taken(keys, next as int);
        }
        next = next + 1;
    }
    proof {
        assert(keys.take(next as int) =~= keys);
        assert forall|id: u128| keys.contains(id) <==> segments@.contains_key(id) by {}
    }
    kept
}

impl LocalCoordinator {
    /// Gives up the segments that nothing maps and that were released, or
    /// whose write intents are over.
    #[verifier::rlimit(40)]
    pub fn run_storage_node_custodian(&mut self, expired_write_intents: &Vec<WriteIntentId>) -> (report:
        StorageNodeCustodianReport)
        requires
            old(self).wf(),
        ensures
            final(self).wf(),
            *final(self) == (LocalCoordinator {
                storage_nodes: final(self).storage_nodes,
                observability: final(self).observability,
                ..*old(self)
            }),
            final(self).storage_nodes == (StorageNodeRegistry {
                segments: final(self).storage_nodes.segments,
                ..old(self).storage_nodes
            }),
            final(self).contents_kept(old(self)),
            final(self).observability.counters == counted(
                old(self).observability.counters,
                StorageEventKind::StorageNodeCustodianRan,
            ),
            lists_given_up(
                report.expired_reservations@,
                old(self).segments(),
                old(self).storage_nodes.node_ids@,
                old(self).nodes(),
                expired_write_intents@,
                Disposal::Expired,
            ),
            lists_given_up(
                report.failed_writes@,
                old(self).segments(),
                old(self).storage_nodes.node_ids@,
                old(self).nodes(),
                expired_write_intents@,
                Disposal::Failed,
            ),
            lists_given_up(
                report.orphan_segments@,
                old(self).segments(),
                old(self).storage_nodes.node_ids@,
                old(self).nodes(),
                expired_write_intents@,
                Disposal::Orphaned,
            ),
            lists_given_up(
                report.deleted_released_segments@,
                old(self).segments(),
                old(self).storage_nodes.node_ids@,
                old(self).nodes(),
                expired_write_intents@,
                Disposal::Deleted,
            ),
            forall|id: u128| #[trigger]
                final(self).segments().contains_key(id) <==> old(self).segments().contains_key(id)
                    && (any_node_names(old(self).nodes(), id) || disposal_of(
                    old(self).segments()[id],
                    expired_write_intents@,
                ) is None),
            forall|id: u128| #[trigger]
                final(self).segments().contains_key(id) ==> final(self).segments()[id] == old(
                    self,
                ).segments()[id],
    {
        let ghost before = *self;
        let ghost nodes = before.nodes();
        let every = all_keys(&self.metadata.trees.nodes);
        let named = segments_named(&self.metadata.trees.nodes, &every);
        proof {
            assert forall|id: u128| #[trigger] named@.contains_key(id) <==> any_node_names(
                nodes,
                id,
            ) by {
                if names_segment(nodes, every@, id) {
                    let node = choose|node: u128| #[trigger]
                        every@.contains_key(node) && nodes.contains_key(node) && node_names(
                            nodes[node],
                            id,
                        );
                    assert(nodes.contains_key(node));
                }
                if any_node_names(nodes, id) {
                    let node = choose|node: u128| #[trigger]
                        nodes.contains_key(node) && node_names(nodes[node], id);
                    assert(every@.contains_key(node));
                }
            }
        }
        let segments = &self.storage_nodes.segments;
        let report = StorageNodeCustodianReport {
            expired_reservations: collect_given_up(
                segments,
                &self.storage_nodes.node_ids,
                &named,
                expired_write_intents,
                Disposal::Expired,
                Ghost(nodes),
            ),
            failed_writes: collect_given_up(
                segments,
                &self.storage_nodes.node_ids,
                &named,
                expired_write_intents,
                Disposal::Failed,
                Ghost(nodes),
            ),
            orphan_segments: collect_given_up(
                segments,
                &self.storage_nodes.node_ids,
                &named,
                expired_write_intents,
                Disposal::Orphaned,
                Ghost(nodes),
            ),
            deleted_released_segments: collect_given_up(
                segments,
                &self.storage_nodes.node_ids,
                &named,
                expired_write_intents,
                Disposal::Deleted,
                Ghost(nodes),
            ),
        };
        let kept = collect_kept(segments, &named, expired_write_intents);
        self.storage_nodes.segments.retain_keys(&kept);
        self.record_event(StorageEventKind::StorageNodeCustodianRan, None, None, None);
        proof {
            assert forall|id: u128| #[trigger] self.nodes().contains_key(id) implies node_backed(
                self.nodes()[id],
                self.segments(),
            ) by {
                assert(node_backed(nodes[id], before.segments()));
                match nodes[id].kind {
                    MetadataNodeKind::Leaf { entries, .. } => {
                        assert forall|i: int| 0 <= i < entries@.len() implies
                            crate::storage_nodes::entry_backed(
                            self.segments(),
                            #[trigger] entries@[i],
                        ) by {
                            assert(crate::storage_nodes::entry_backed(
                                before.segments(),
                                entries@[i],
                            ));
                            let segment = entries@[i].segment_id.0;
                            assert(node_names(nodes[id], segment));
                            assert(any_node_names(nodes, segment));
                            assert(kept@.contains_key(segment));
                            assert(self.segments().contains_key(segment));
                        }
                    },
                    _ => {},
                }
            }
            assert(self.wf());
            lemma_bytes_without(before, *self);
        }
        report
    }
}

/// Segments that nothing maps can go without a byte changing.
proof fn lemma_bytes_without(before: LocalCoordinator, after: LocalCoordinator)
    requires
        before.wf(),
        after.wf(),
        after.config == before.config,
        after.metadata == before.metadata,
        after.append_run_logs == before.append_run_logs,
        forall|id: u128| #[trigger]
            after.segments().contains_key(id) ==> before.segments().contains_key(id)
                && after.segments()[id] == before.segments()[id],
    ensures
        after.contents_kept(&before),
{
    let bs = before.block_size();
    assert(keeps_segments(after.segments(), before.segments()));
    assert forall|d: DeviceId, byte: int|
        before.metadata.has_device(d) && 0 <= byte < before.device_bytes(d) implies #[trigger]
        after.device_byte(d, byte) == before.device_byte(d, byte) by {
        let roots = before.metadata.roots_of(d);
        let held = device_block_at(after.nodes(), roots, byte / bs as int);
        if held is Some {
            crate::backing::lemma_device_block_stored(
                after.nodes(),
                after.segments(),
                roots,
                byte / bs as int,
            );
        }
        crate::backing::lemma_stored_byte_kept(after.segments(), before.segments(), held, bs, byte);
    }
    assert forall|k: KeyspaceId, f: FileId, byte: int|
        before.metadata.has_file(k, f) implies #[trigger] after.file_byte(k, f, byte)
        == before.file_byte(k, f, byte) by {
        let root = before.metadata.file_head(k, f)->0.root;
        let held = block_at(after.nodes(), root.0, byte / bs as int);
        if held is Some {
            crate::backing::lemma_block_stored(
                after.nodes(),
                after.segments(),
                root.0,
                byte / bs as int,
            );
        }
        crate::backing::lemma_stored_byte_kept(after.segments(), before.segments(), held, bs, byte);
    }
}

} // verus!
