//! How far the durable copy of a store has come.
use vstd::prelude::*;

use crate::config::LocalStoreConfig;
use crate::coordinator::LocalCoordinator;

verus! {

/// The next number of each kind that the durable copy does not know.
#[derive(Clone, Copy, PartialEq, Eq, Structural, Debug)]
pub struct DurableExportCursor {
    pub config: LocalStoreConfig,
    pub next_device_id: u128,
    pub next_keyspace_id: u128,
    pub next_file_id: u128,
    pub next_metadata_node_id: u128,
    pub next_keyspace_root_id: u128,
    pub next_keyspace_catalog_shard_id: u128,
    pub next_commit_group_id: u128,
    pub next_commit_seq: u64,
    pub next_checkpoint_id: u128,
    pub next_gc_epoch: u64,
    pub next_write_intent: u128,
    pub next_extent_id: u128,
    pub next_segment_id: u128,
    pub next_placement_index: u64,
}

impl LocalCoordinator {
    /// The cursor of a durable copy that knows everything.
    pub open spec fn export_cursor(&self) -> DurableExportCursor {
        DurableExportCursor {
            config: self.config,
            next_device_id: self.metadata.next_device_id,
            next_keyspace_id: self.metadata.next_keyspace_id,
            next_file_id: self.metadata.next_file_id,
            next_metadata_node_id: self.metadata.trees.next_metadata_node_id,
            next_keyspace_root_id: self.metadata.next_keyspace_root_id,
            next_keyspace_catalog_shard_id: self.metadata.next_keyspace_catalog_shard_id,
            next_commit_group_id: self.metadata.next_commit_group_id,
            next_commit_seq: self.metadata.next_commit_seq,
            next_checkpoint_id: self.metadata.next_checkpoint_id,
            next_gc_epoch: self.metadata.next_gc_epoch,
            next_write_intent: self.next_write_intent,
            next_extent_id: self.next_extent_id,
            next_segment_id: self.storage_nodes.next_segment_id,
            next_placement_index: self.storage_nodes.next_placement_index,
        }
    }

    pub fn durable_export_cursor(&self) -> (cursor: DurableExportCursor)
        ensures
            cursor == self.export_cursor(),
    {
        DurableExportCursor {
            config: self.config,
            next_device_id: self.metadata.next_device_id,
            next_keyspace_id: self.metadata.next_keyspace_id,
            next_file_id: self.metadata.next_file_id,
            next_metadata_node_id: self.metadata.trees.next_metadata_node_id,
            next_keyspace_root_id: self.metadata.next_keyspace_root_id,
            next_keyspace_catalog_shard_id: self.metadata.next_keyspace_catalog_shard_id,
            next_commit_group_id: self.metadata.next_commit_group_id,
            next_commit_seq: self.metadata.next_commit_seq,
            next_checkpoint_id: self.metadata.next_checkpoint_id,
            next_gc_epoch: self.metadata.next_gc_epoch,
            next_write_intent: self.next_write_intent,
            next_extent_id: self.next_extent_id,
            next_segment_id: self.storage_nodes.next_segment_id,
            next_placement_index: self.storage_nodes.next_placement_index,
        }
    }
}

} // verus!
