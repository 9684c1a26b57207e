//! What the durable copy is written from, and the store that is made of what
//! it holds.
use vstd::prelude::*;

use crate::config::LocalStoreConfig;
use crate::coordinator::LocalCoordinator;
use crate::error::StorageError;
use crate::export_cursor::DurableExportCursor;
use crate::export_rows::{all_keys, lemma_taken};
use crate::export_state::{any_node_names, exported};
use crate::gc::only_in_first;
use crate::id::{CommitSeq, SegmentId, StorageNodeId, WriterEpoch};
use crate::idmap::{IdMap, is_walk};
use crate::metadata::{MetadataInner, streams_wf};
use crate::observability::Observability;
use crate::reach::{names_segment, node_names, segments_named};
use crate::read_plan::tree_runs_backed;
use crate::run_logs::AppendRunLogs;
use crate::storage_nodes::StorageNodeRegistry;
use crate::tree::tree_backed;

verus! {

/// Everything of a store that its durable copy holds.
pub struct DurableStoreState {
    pub config: LocalStoreConfig,
    pub metadata: MetadataInner,
    pub storage_nodes: StorageNodeRegistry,
    pub append_run_logs: AppendRunLogs,
    pub next_write_intent: u128,
    pub next_extent_id: u128,
}

impl DurableStoreState {
    /// Whether all parts are sound and fit each other.
    pub open spec fn wf(&self) -> bool {
        let block_size = self.config.block_size as u64;
        &&& self.metadata.devices_wf(block_size)
        &&& self.metadata.files_wf(block_size)
        &&& self.storage_nodes.wf(block_size)
        &&& tree_backed(self.metadata.nodes(), self.storage_nodes.segments@)
        &&& tree_runs_backed(self.metadata.nodes(), self.append_run_logs@)
        &&& streams_wf(
            self.append_run_logs@,
            self.metadata.append_streams@,
            self.metadata.next_append_stream_id,
        )
    }
}

impl DurableStoreState {
    /// Whether this is what the durable copy of a store holds.
    pub open spec fn holds(&self, store: &LocalCoordinator) -> bool {
        &&& self.config == store.config
        &&& self.metadata == store.metadata
        &&& self.storage_nodes == store.storage_nodes
        &&& self.append_run_logs == store.append_run_logs
        &&& self.next_write_intent == store.next_write_intent
        &&& self.next_extent_id == store.next_extent_id
    }
}

impl LocalCoordinator {
    /// Whether a store is what was opened of a durable copy.
    pub open spec fn opened_from(&self, image: &DurableStoreState) -> bool {
        &&& self.wf()
        &&& image.holds(self)
        &&& self.block_writer_epochs@ == Map::<u128, WriterEpoch>::empty()
        &&& self.append_stream_storage_lanes@ == Map::<u128, StorageNodeId>::empty()
        &&& self.read_profiler is None
        &&& self.native_file_batch_profiler is None
    }
}

/// The segments of an export: all that the durable copy then holds, and those
/// that are new to it.
pub struct ExportedSegments {
    pub current: IdMap<()>,
    pub new_segments: Vec<SegmentId>,
}

impl ExportedSegments {
    /// Whether these are some segments and what an earlier export lacks of them.
    pub open spec fn are(&self, ids: Set<u128>, previous: Map<u128, ()>) -> bool {
        &&& self.current@.dom() == ids
        &&& forall|id: u128| #[trigger]
            self.new_segments@.contains(SegmentId(id)) <==> ids.contains(id) && !previous.contains_key(id)
    }
}

fn split_from_previous(current: IdMap<()>, previous: &IdMap<()>) -> (segments: ExportedSegments)
    ensures
        segments.are(current@.dom(), previous@),
{
    let new_segments = only_in_first(&current, previous);
    assert forall|id: u128| #[trigger] new_segments@.contains(SegmentId(id)) <==> current@.dom().contains(id)
        && !previous@.contains_key(id) by {
        assert(current@.contains_key(id) == current@.dom().contains(id));
    }
    ExportedSegments { current, new_segments }
}

impl LocalCoordinator {
    /// The store that a durable copy holds. No writer and no stream lane is known yet.
    pub fn from_durable_state(image: DurableStoreState) -> (result: Result<
        LocalCoordinator,
        StorageError,
    >)
        requires
            image.config.valid() ==> image.wf(),
        ensures
            result is Ok <==> image.config.valid(),
            result matches Ok(store) ==> store.opened_from(&image),
            result matches Err(error) ==> error == (StorageError::InvalidArgument {
                message: image.config.fault(),
            }),
    {
        match image.config.validate() {
            Ok(()) => {},
            Err(error) => return Err(error),
        }
        let observability = match Observability::new(image.config.observability_event_capacity) {
            Ok(observability) => observability,
            Err(error) => {
                assert(false);
                return Err(error);
            },
        };
        Ok(
            LocalCoordinator {
                config: image.config,
                metadata: image.metadata,
                storage_nodes: image.storage_nodes,
                append_run_logs: image.append_run_logs,
                append_stream_storage_lanes: IdMap::new(),
                next_write_intent: image.next_write_intent,
                next_extent_id: image.next_extent_id,
                observability,
                read_profiler: None,
                native_file_batch_profiler: None,
                block_writer_epochs: IdMap::new(),
            },
        )
    }

    /// The segments of an export of everything.
    pub fn segments_for_durable_persist(&self, previous_segments: &IdMap<()>) -> (segments:
        ExportedSegments)
        ensures
            segments.are(self.segments().dom(), previous_segments@),
    {
        let current = all_keys(&self.storage_nodes.segments);
        assert(current@.dom() =~= self.segments().dom()) by {
            assert forall|id: u128| current@.dom().contains(id) <==> self.segments().dom().contains(
                id,
            ) by {
                assert(current@.contains_key(id) <==> self.segments().contains_key(id));
            }
        }
        split_from_previous(current, previous_segments)
    }

    /// The segments of an export at a commit: those that its nodes name and,
    /// where it adds to an earlier export, those of that export; each as far as
    /// the storage nodes hold it.
    pub fn segments_for_durable_persist_through(
        &self,
        exported: &MetadataInner,
        incremental: bool,
        previous_segments: &IdMap<()>,
    ) -> (segments: ExportedSegments)
        ensures
            segments.are(
                self.segments().dom().filter(
                    |id: u128|
                        any_node_names(exported.nodes(), id) || incremental
                            && previous_segments@.contains_key(id),
                ),
                previous_segments@,
            ),
    {
        let nodes = all_keys(&exported.trees.nodes);
        let named = segments_named(&exported.trees.nodes, &nodes);
        let count: usize = self.storage_nodes.segments.len();
        let ghost keys = self.storage_nodes.segments.keys();
        let mut current: IdMap<()> = IdMap::new();
        let mut next: usize = 0;
        while next < count
            invariant
                next <= count,
                count == keys.len(),
                keys == self.storage_nodes.segments.keys(),
                is_walk(keys, self.storage_nodes.segments@),
                forall|id: u128| #[trigger]
                    current@.contains_key(id) <==> keys.take(next as int).contains(id) && (
                    named@.contains_key(id) || incremental && previous_segments@.contains_key(id)),
            decreases count - next,
        {
            let (id, _) = self.storage_nodes.segments.entry_at(next);
            proof {
                lemma_taken(keys, next as int);
            }
            if named.contains_key(id) || incremental && previous_segments.contains_key(id) {
                current.insert(id, ());
            }
            next = next + 1;
        }
        proof {
            assert(keys.take(next as int) =~= keys);
            let wanted = self.segments().dom().filter(
                |id: u128|
                    any_node_names(exported.nodes(), id) || incremental
                        && previous_segments@.contains_key(id),
            );
            assert forall|id: u128| current@.dom().contains(id) <==> wanted.contains(id) by {
                assert(current@.contains_key(id) == current@.dom().contains(id));
                assert(names_segment(exported.nodes(), nodes@, id) <==> any_node_names(
                    exported.nodes(),
                    id,
                )) by {
                    if any_node_names(exported.nodes(), id) {
                        let n = choose|n: u128| #[trigger]
                            exported.nodes().contains_key(n) && node_names(
                                exported.nodes()[n],
                                id,
                            );
                        assert(nodes@.contains_key(n));
                    }
                }
            }
            assert(current@.dom() =~= wanted);
        }
        split_from_previous(current, previous_segments)
    }
}

/// Whether an export at a commit is one of everything, because nothing later
/// has been committed.
pub fn exports_everything(target: CommitSeq, next_commit_seq: u64) -> (everything: bool)
    ensures
        everything == (target.0 + 1 >= next_commit_seq),
{
    next_commit_seq == 0 || target.0 >= next_commit_seq - 1
}

/// Whether an export can add to an earlier one: nothing has been swept since.
pub fn adds_to_previous(previous: Option<&DurableExportCursor>, next_gc_epoch: u64) -> (adds: bool)
    ensures
        adds <==> (previous matches Some(cursor) && cursor.next_gc_epoch == next_gc_epoch),
{
    match previous {
        Some(cursor) => cursor.next_gc_epoch == next_gc_epoch,
        None => false,
    }
}

} // verus!
