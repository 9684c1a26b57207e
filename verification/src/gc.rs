//! Dropping metadata that nothing needs any more: marking what the heads,
//! the checkpoints and the kept history lead to, and sweeping the rest.
use vstd::prelude::*;

use crate::device_trees::{keeps_below, lemma_device_kept_below};
use crate::error::StorageError;
use crate::export::{rows_kept, rows_picked};
use crate::export_rows::{
    Names, NameKind, OfCommit, add_list_names, add_map_names, add_map_names_from, add_picked_names,
    all_keys, between, keys_between, list_names, lists_node, lists_shard, map_names,
    map_names_from, picked_names, rows_between,
};
use crate::id::{CommitSeq, MetadataNodeId, SegmentId};
use crate::idmap::{IdMap, is_walk};
use crate::metadata::{
    MetadataInner, catalog_roots_wf, catalog_shard_wf, checkpoint_wf, file_wf, head_wf,
    shard_commit_wf,
};
use crate::metadata_records::{CheckpointRoots, MappingOwner, MetadataNode, MetadataNodeKind};
use crate::reach::{
    closed_down, collect_all, names_segment, node_names, reaches, roots_stored, segments_named,
};
use crate::tree::{children_wf, node_wf, tree_wf};

verus! {

/// How much history is kept: that of the commits from one on.
#[derive(Clone, Copy, Debug, PartialEq, Eq, Structural)]
pub struct RetentionPolicy {
    pub keep_history_from: CommitSeq,
}

/// What a mark found.
#[derive(Clone, Copy, Debug, PartialEq, Eq, Structural)]
pub struct MetadataMarkReport {
    pub epoch: u64,
    pub reachable_nodes: usize,
    pub reachable_segments: usize,
}

/// Writes an epoch beside each of some keys.
fn stamp(marks: &mut IdMap<u64>, ids: &IdMap<()>, epoch: u64)
    ensures
        stamped(old(marks)@, final(marks)@, ids@, epoch),
{
    let count: usize = ids.len();
    let ghost keys = ids.keys();
    let mut next: usize = 0;
    while next < count
        invariant
            next <= count,
            count == keys.len(),
            keys == ids.keys(),
            is_walk(keys, ids@),
            forall|id: u128| #[trigger]
                marks@.contains_key(id) <==> old(marks)@.contains_key(id) || keys.take(
                    next as int,
                ).contains(id),
            forall|id: u128| #[trigger]
                marks@.contains_key(id) ==> marks@[id] == if keys.take(next as int).contains(id) {
                    epoch
                } else {
                    old(marks)@[id]
                },
        decreases count - next,
    {
        let (id, _) = ids.entry_at(next);
        marks.insert(id, epoch);
        proof {
            crate::export_rows::lemma_taken(keys, next as int);
        }
        next = next + 1;
    }
    proof {
        assert(keys.take(next as int) =~= keys);
        assert forall|id: u128| keys.contains(id) <==> ids@.contains_key(id) by {}
    }
}

/// Whether an epoch stands beside each of some keys, and nothing else
/// changed.
pub open spec fn stamped(
    before: Map<u128, u64>,
    after: Map<u128, u64>,
    ids: Map<u128, ()>,
    epoch: u64,
) -> bool {
    &&& forall|id: u128| #[trigger]
        after.contains_key(id) <==> before.contains_key(id) || ids.contains_key(id)
    &&& forall|id: u128| #[trigger]
        after.contains_key(id) ==> after[id] == if ids.contains_key(id) {
            epoch
        } else {
            before[id]
        }
}

/// Whether an epoch stands beside each picked key, and nothing else changed.
pub open spec fn marks_set(
    before: Map<u128, u64>,
    after: Map<u128, u64>,
    picked: spec_fn(u128) -> bool,
    epoch: u64,
) -> bool {
    &&& forall|id: u128| #[trigger]
        after.contains_key(id) <==> before.contains_key(id) || picked(id)
    &&& forall|id: u128| #[trigger]
        after.contains_key(id) ==> after[id] == if picked(id) {
            epoch
        } else {
            before[id]
        }
}

proof fn lemma_marks_set(
    before: Map<u128, u64>,
    after: Map<u128, u64>,
    ids: Map<u128, ()>,
    picked: spec_fn(u128) -> bool,
    epoch: u64,
)
    requires
        stamped(before, after, ids, epoch),
        forall|id: u128| #[trigger] ids.contains_key(id) <==> picked(id),
    ensures
        marks_set(before, after, picked, epoch),
{
    assert forall|id: u128| picked(id) implies ids.contains_key(id) by {}
    assert forall|id: u128| #[trigger] after.contains_key(id) <==> before.contains_key(id)
        || picked(id) by {
        assert(ids.contains_key(id) <==> picked(id));
    }
    assert forall|id: u128| #[trigger] after.contains_key(id) implies after[id] == if picked(id) {
        epoch
    } else {
        before[id]
    } by {
        assert(ids.contains_key(id) <==> picked(id));
    }
}

/// There are as many picked keys as a walk over them meets.
proof fn lemma_walk_len(keys: Seq<u128>, map: Map<u128, ()>, picked: spec_fn(u128) -> bool)
    requires
        is_walk(keys, map),
        forall|id: u128| #[trigger] map.contains_key(id) <==> picked(id),
    ensures
        Set::<u128>::new(picked).len() == keys.len(),
{
    assert(keys.no_duplicates());
    keys.unique_seq_to_set();
    assert(keys.to_set() =~= Set::<u128>::new(picked)) by {
        assert forall|id: u128| keys.to_set().contains(id) <==> Set::<u128>::new(
            picked,
        ).contains(id) by {
            assert(map.contains_key(id) <==> picked(id));
            if keys.contains(id) {
                assert(map.contains_key(keys[keys.index_of(id)]));
            }
        }
    }
}

/// The keys beside which an epoch stands and which a map has.
fn stamped_with(marks: &IdMap<u64>, nodes: &IdMap<MetadataNode>, epoch: u64) -> (ids: IdMap<()>)
    ensures
        forall|id: u128| #[trigger]
            ids@.contains_key(id) <==> marks@.contains_key(id) && marks@[id] == epoch
                && nodes@.contains_key(id),
{
    let mut ids: IdMap<()> = IdMap::new();
    let count: usize = marks.len();
    let ghost keys = marks.keys();
    let mut next: usize = 0;
    while next < count
        invariant
            next <= count,
            count == keys.len(),
            keys == marks.keys(),
            is_walk(keys, marks@),
            forall|id: u128| #[trigger]
                ids@.contains_key(id) <==> keys.take(next as int).contains(id) && marks@[id]
                    == epoch && nodes@.contains_key(id),
        decreases count - next,
    {
        let (id, mark) = marks.entry_at(next);
        if *mark == epoch && nodes.contains_key(id) {
            ids.insert(id, ());
        }
        proof {
            crate::export_rows::lemma_taken(keys, next as int);
        }
        next = next + 1;
    }
    proof {
        assert(keys.take(next as int) =~= keys);
        assert forall|id: u128| keys.contains(id) <==> marks@.contains_key(id) by {}
    }
    ids
}

impl MetadataInner {
    /// Whether a catalog shard is still needed.
    pub open spec fn needs_shard(&self, from: u64, id: u128) -> bool {
        ||| map_names(self.keyspace_heads@, NameKind::Shard, id)
        ||| list_names(between(self.keyspace_commits@, from, u64::MAX), NameKind::Shard, id)
        ||| map_names(self.keyspace_roots@, NameKind::Shard, id)
    }

    /// Whether a needed catalog shard names a root.
    pub open spec fn needed_shard_names(&self, from: u64, id: u128) -> bool {
        exists|shard: u128| #[trigger]
            self.keyspace_catalog_shards@.contains_key(shard) && self.needs_shard(from, shard)
                && self.keyspace_catalog_shards@[shard].names(NameKind::Root, id)
    }

    /// Whether the root of a metadata tree is still needed.
    pub open spec fn needs_root(&self, from: u64, id: u128) -> bool {
        ||| map_names(self.device_heads@, NameKind::Root, id)
        ||| map_names_from(self.deleted_device_heads@, from, NameKind::Root, id)
        ||| map_names_from(self.fork_records@, from, NameKind::Root, id)
        ||| map_names_from(self.delete_records@, from, NameKind::Root, id)
        ||| list_names(between(self.shard_commits@, from, u64::MAX), NameKind::Root, id)
        ||| list_names(between(self.file_commits@, from, u64::MAX), NameKind::Root, id)
        ||| map_names_from(self.commit_groups@, from, NameKind::Root, id)
        ||| map_names(self.checkpoints@, NameKind::Root, id)
        ||| self.needed_shard_names(from, id)
    }

    fn shards_needed(&self, from: u64) -> (needed: IdMap<()>)
        ensures
            forall|id: u128| #[trigger] needed@.contains_key(id) <==> self.needs_shard(from, id),
    {
        let mut needed: IdMap<()> = IdMap::new();
        add_map_names(&self.keyspace_heads, NameKind::Shard, &mut needed);
        let commits = rows_between(&self.keyspace_commits, from, u64::MAX);
        add_list_names(&commits, NameKind::Shard, &mut needed);
        add_map_names(&self.keyspace_roots, NameKind::Shard, &mut needed);
        needed
    }

    fn roots_needed(&self, from: u64) -> (needed: IdMap<()>)
        ensures
            forall|id: u128| #[trigger] needed@.contains_key(id) <==> self.needs_root(from, id),
    {
        let kind = NameKind::Root;
        let shards = self.shards_needed(from);
        let mut needed: IdMap<()> = IdMap::new();
        add_map_names(&self.device_heads, kind, &mut needed);
        add_map_names_from(&self.deleted_device_heads, from, kind, &mut needed);
        add_map_names_from(&self.fork_records, from, kind, &mut needed);
        add_map_names_from(&self.delete_records, from, kind, &mut needed);
        let shard_commits = rows_between(&self.shard_commits, from, u64::MAX);
        add_list_names(&shard_commits, kind, &mut needed);
        let file_commits = rows_between(&self.file_commits, from, u64::MAX);
        add_list_names(&file_commits, kind, &mut needed);
        add_map_names_from(&self.commit_groups, from, kind, &mut needed);
        add_map_names(&self.checkpoints, kind, &mut needed);
        let ghost then = needed@;
        add_picked_names(&self.keyspace_catalog_shards, &shards, kind, &mut needed);
        proof {
            assert forall|id: u128| picked_names(
                self.keyspace_catalog_shards@,
                shards@,
                kind,
                id,
            ) <==> self.needed_shard_names(from, id) by {
                if picked_names(self.keyspace_catalog_shards@, shards@, kind, id) {
                    let key = choose|key: u128| #[trigger]
                        shards@.contains_key(key) && self.keyspace_catalog_shards@.contains_key(
                            key,
                        ) && self.keyspace_catalog_shards@[key].names(kind, id);
                    assert(self.keyspace_catalog_shards@.contains_key(key));
                }
                if self.needed_shard_names(from, id) {
                    let shard = choose|shard: u128| #[trigger]
                        self.keyspace_catalog_shards@.contains_key(shard) && self.needs_shard(
                            from,
                            shard,
                        ) && self.keyspace_catalog_shards@[shard].names(NameKind::Root, id);
                    assert(shards@.contains_key(shard));
                }
            }
        }
        needed
    }

    /// Whether a node is still needed.
    pub open spec fn needs_node(&self, from: u64, id: u128) -> bool {
        exists|root: u128| #[trigger] self.needs_root(from, root) && reaches(
            self.nodes(),
            root,
            id,
        )
    }

    /// Whether every root that is needed is stored.
    pub open spec fn needed_roots_stored(&self, from: u64) -> bool {
        forall|id: u128| #[trigger] self.needs_root(from, id) ==> self.nodes().contains_key(id)
    }

    /// Marks what is still needed with a new epoch.
    pub fn mark_reachable(&mut self, policy: RetentionPolicy, block_size: Ghost<u64>) -> (result:
        Result<MetadataMarkReport, StorageError>)
        requires
            tree_wf(old(self).nodes(), block_size@),
        ensures
            *final(self) == (MetadataInner {
                metadata_last_mark_epoch: final(self).metadata_last_mark_epoch,
                segment_last_mark_epoch: final(self).segment_last_mark_epoch,
                next_gc_epoch: final(self).next_gc_epoch,
                ..*old(self)
            }),
            result is Ok <==> old(self).needed_roots_stored(policy.keep_history_from.0) && old(
                self,
            ).next_gc_epoch < u64::MAX,
            result matches Ok(report) ==> final(self).marked_from(
                old(self),
                policy.keep_history_from.0,
                report,
            ),
            result matches Err(error) ==> *final(self) == *old(self) && (error is NotFound
                || error is Conflict),
    {
        let ghost before = *self;
        let from = policy.keep_history_from.0;
        let roots = self.roots_needed(from);
        proof {
            if roots_stored(self.nodes(), roots@, 0) {
                assert forall|id: u128| #[trigger] self.needs_root(from, id) implies
                    self.nodes().contains_key(id) by {
                    assert(roots@.contains_key(id));
                }
            } else {
                let id = choose|id: u128|
                    #![trigger roots@.contains_key(id)]
                    roots@.contains_key(id) && id >= 0u128 && !self.nodes().contains_key(id);
                assert(self.needs_root(from, id));
            }
        }
        let found = match collect_all(&self.trees.nodes, &roots, 0, block_size) {
            Ok(found) => found,
            Err(error) => return Err(error),
        };
        if self.next_gc_epoch == u64::MAX {
            return Err(StorageError::conflict("gc epoch overflow"));
        }
        let segments = segments_named(&self.trees.nodes, &found);
        let epoch = self.next_gc_epoch;
        stamp(&mut self.metadata_last_mark_epoch, &found, epoch);
        stamp(&mut self.segment_last_mark_epoch, &segments, epoch);
        self.next_gc_epoch = epoch + 1;
        let reachable_nodes: usize = found.len();
        let reachable_segments: usize = segments.len();
        proof {
            assert forall|id: u128| found@.contains_key(id) <==> #[trigger] before.needs_node(
                from,
                id,
            ) by {
                if found@.contains_key(id) {
                    let root = choose|root: u128| #[trigger]
                        roots@.contains_key(root) && reaches(before.nodes(), root, id);
                    assert(before.needs_root(from, root));
                }
                if before.needs_node(from, id) {
                    let root = choose|root: u128| #[trigger]
                        before.needs_root(from, root) && reaches(before.nodes(), root, id);
                    assert(roots@.contains_key(root));
                }
            }
            assert forall|id: u128| segments@.contains_key(id) <==> #[trigger] before.needs_segment(
                from,
                id,
            ) by {
                if segments@.contains_key(id) {
                    let node = choose|node: u128| #[trigger]
                        found@.contains_key(node) && before.nodes().contains_key(node)
                            && node_names(before.nodes()[node], id);
                    assert(before.needs_node(from, node));
                }
                if before.needs_segment(from, id) {
                    let node = choose|node: u128| #[trigger]
                        before.needs_node(from, node) && before.nodes().contains_key(node)
                            && node_names(before.nodes()[node], id);
                    assert(found@.contains_key(node));
                }
            }
            let needed = |id: u128| before.needs_node(from, id);
            let named = |id: u128| before.needs_segment(from, id);
            lemma_marks_set(
                before.metadata_last_mark_epoch@,
                self.metadata_last_mark_epoch@,
                found@,
                needed,
                epoch,
            );
            lemma_marks_set(
                before.segment_last_mark_epoch@,
                self.segment_last_mark_epoch@,
                segments@,
                named,
                epoch,
            );
            lemma_walk_len(found.keys(), found@, needed);
            lemma_walk_len(segments.keys(), segments@, named);
        }
        Ok(
            MetadataMarkReport {
                epoch,
                reachable_nodes,
                reachable_segments,
            },
        )
    }

    /// Whether a node is stored and marked with an epoch.
    pub open spec fn marked_with(&self, epoch: u64, id: u128) -> bool {
        &&& self.nodes().contains_key(id)
        &&& self.metadata_last_mark_epoch@.contains_key(id)
        &&& self.metadata_last_mark_epoch@[id] == epoch
    }

    /// Whether a node that is marked with an epoch leads to a node.
    pub open spec fn leads_marked(&self, epoch: u64, id: u128) -> bool {
        exists|marked: u128| #[trigger] self.marked_with(epoch, marked) && reaches(
            self.nodes(),
            marked,
            id,
        )
    }

    /// Whether every node that is left was needed, or a marked node led to it.
    pub open spec fn nodes_swept(&self, before: &MetadataInner, from: u64, epoch: u64) -> bool {
        forall|id: u128| #[trigger]
            self.nodes().contains_key(id) ==> before.needs_node(from, id) || before.leads_marked(
                epoch,
                id,
            )
    }

    /// Whether a needed node names a segment.
    pub open spec fn needs_segment(&self, from: u64, id: u128) -> bool {
        exists|node: u128| #[trigger]
            self.needs_node(from, node) && self.nodes().contains_key(node) && node_names(
                self.nodes()[node],
                id,
            )
    }

    /// Whether the nodes and segments that are needed, and no others, were marked
    /// and counted.
    pub open spec fn marked_from(
        &self,
        before: &MetadataInner,
        from: u64,
        report: MetadataMarkReport,
    ) -> bool {
        let nodes = |id: u128| before.needs_node(from, id);
        let segments = |id: u128| before.needs_segment(from, id);
        &&& report.epoch == before.next_gc_epoch
        &&& self.next_gc_epoch == report.epoch + 1
        &&& marks_set(
            before.metadata_last_mark_epoch@,
            self.metadata_last_mark_epoch@,
            nodes,
            report.epoch,
        )
        &&& marks_set(
            before.segment_last_mark_epoch@,
            self.segment_last_mark_epoch@,
            segments,
            report.epoch,
        )
        &&& report.reachable_nodes == Set::<u128>::new(nodes).len()
        &&& report.reachable_segments == Set::<u128>::new(segments).len()
    }

    /// Whether nothing that is needed is gone, the history from a commit on is
    /// left, and the rest is as it was.
    pub open spec fn swept_from(&self, before: &MetadataInner, from: u64) -> bool {
        &&& forall|id: u128| #[trigger]
            self.nodes().contains_key(id) ==> before.nodes().contains_key(id) && self.nodes()[id]
                == before.nodes()[id]
        &&& forall|id: u128| #[trigger]
            before.needs_node(from, id) ==> self.nodes().contains_key(id)
        &&& rows_picked(
            before.keyspace_catalog_shards@,
            self.keyspace_catalog_shards@,
            |id: u128| before.needs_shard(from, id),
        )
        &&& rows_kept(
            before.deleted_device_heads@,
            self.deleted_device_heads@,
            from,
            u64::MAX,
            0,
        )
        &&& rows_kept(before.fork_records@, self.fork_records@, from, u64::MAX, 0)
        &&& rows_kept(before.delete_records@, self.delete_records@, from, u64::MAX, 0)
        &&& rows_kept(before.commit_groups@, self.commit_groups@, from, u64::MAX, 0)
        &&& self.shard_commits@ == between(before.shard_commits@, from, u64::MAX)
        &&& self.keyspace_commits@ == between(before.keyspace_commits@, from, u64::MAX)
        &&& self.file_commits@ == between(before.file_commits@, from, u64::MAX)
        &&& self.history_floor == if before.history_floor < from {
            from
        } else {
            before.history_floor
        }
        &&& self.device_specs == before.device_specs
        &&& self.device_heads == before.device_heads
        &&& self.keyspace_heads == before.keyspace_heads
        &&& self.keyspace_roots == before.keyspace_roots
        &&& self.keyspace_births == before.keyspace_births
        &&& self.checkpoints == before.checkpoints
        &&& self.file_writer_epochs == before.file_writer_epochs
        &&& self.append_streams == before.append_streams
        &&& self.append_publish_in_flight == before.append_publish_in_flight
        &&& self.append_publish_tickets == before.append_publish_tickets
        &&& self.trees.next_metadata_node_id == before.trees.next_metadata_node_id
        &&& self.next_device_id == before.next_device_id
        &&& self.next_keyspace_id == before.next_keyspace_id
        &&& self.next_file_id == before.next_file_id
        &&& self.next_keyspace_root_id == before.next_keyspace_root_id
        &&& self.next_keyspace_catalog_shard_id == before.next_keyspace_catalog_shard_id
        &&& self.next_commit_group_id == before.next_commit_group_id
        &&& self.next_checkpoint_id == before.next_checkpoint_id
        &&& self.next_append_stream_id == before.next_append_stream_id
        &&& self.next_append_ticket_id == before.next_append_ticket_id
        &&& self.next_append_publish_ticket_id == before.next_append_publish_ticket_id
        &&& self.next_commit_seq == before.next_commit_seq
        &&& self.next_gc_epoch == before.next_gc_epoch
    }

    /// Whether these are the records of an earlier state after a mark and a
    /// sweep.
    pub open spec fn custodian_ran_from(&self, before: &MetadataInner, from: u64) -> bool {
        &&& self.next_gc_epoch == before.next_gc_epoch + 1
        &&& self.swept_from(
            &(MetadataInner {
                metadata_last_mark_epoch: self.metadata_last_mark_epoch,
                segment_last_mark_epoch: self.segment_last_mark_epoch,
                next_gc_epoch: self.next_gc_epoch,
                ..*before
            }),
            from,
        )
    }

    /// Whether a sweep may run: the epoch is that of the latest mark and no
    /// publish is under way.
    pub open spec fn sweeps(&self, policy: RetentionPolicy, epoch: u64) -> bool {
        &&& epoch + 1 == self.next_gc_epoch
        &&& self.append_publish_in_flight@ == Map::<
            u128,
            crate::metadata::AppendPublishInFlight,
        >::empty()
        &&& self.needed_roots_stored(policy.keep_history_from.0)
    }

    /// Takes out the nodes that are neither needed nor marked, and the
    /// history before the policy's bound. What comes back are the segments
    /// that only such nodes named.
    #[verifier::rlimit(60)]
    pub fn sweep_unmarked_after_mark(
        &mut self,
        policy: RetentionPolicy,
        epoch: u64,
        block_size: Ghost<u64>,
    ) -> (result: Result<Vec<SegmentId>, StorageError>)
        requires
            old(self).devices_wf(block_size@),
            old(self).files_wf(block_size@),
        ensures
            final(self).devices_wf(block_size@),
            final(self).files_wf(block_size@),
            result is Ok <==> old(self).sweeps(policy, epoch),
            result matches Ok(released) ==> {
                &&& final(self).swept_from(old(self), policy.keep_history_from.0)
                &&& final(self).nodes_swept(old(self), policy.keep_history_from.0, epoch)
                &&& forall|id: u128| #[trigger]
                    old(self).nodes().contains_key(id) && old(
                        self,
                    ).metadata_last_mark_epoch@.contains_key(id) && old(
                        self,
                    ).metadata_last_mark_epoch@[id] == epoch ==> final(self).nodes().contains_key(id)
                &&& crate::custodian::lists_unnamed(
                    released@,
                    old(self).nodes(),
                    final(self).nodes(),
                )
            },
            result matches Err(error) ==> *final(self) == *old(self) && (error is Conflict
                || error is NotFound),
    {
        let ghost before = *self;
        let from = policy.keep_history_from.0;
        if self.next_gc_epoch == 0 || epoch != self.next_gc_epoch - 1 {
            return Err(StorageError::conflict("stale gc epoch"));
        }
        if !self.append_publish_in_flight.is_empty() {
            return Err(StorageError::conflict("append publish in flight"));
        }
        let needed = self.roots_needed(from);
        proof {
            if roots_stored(self.nodes(), needed@, 0) {
                assert forall|id: u128| #[trigger] self.needs_root(from, id) implies
                    self.nodes().contains_key(id) by {
                    assert(needed@.contains_key(id));
                }
            } else {
                let id = choose|id: u128|
                    #![trigger needed@.contains_key(id)]
                    needed@.contains_key(id) && id >= 0u128 && !self.nodes().contains_key(id);
                assert(self.needs_root(from, id));
            }
        }
        let mut found = match collect_all(&self.trees.nodes, &needed, 0, block_size) {
            Ok(found) => found,
            Err(error) => return Err(error),
        };
        let marked = stamped_with(&self.metadata_last_mark_epoch, &self.trees.nodes, epoch);
        let count: usize = marked.len();
        let ghost keys = marked.keys();
        let ghost reached = found@;
        let mut next: usize = 0;
        while next < count
            invariant
                next <= count,
                count == keys.len(),
                keys == marked.keys(),
                is_walk(keys, marked@),
                *self == before,
                tree_wf(before.nodes(), block_size@),
                forall|id: u128| #[trigger]
                    marked@.contains_key(id) ==> before.nodes().contains_key(id),
                closed_down(before.nodes(), found@, 0),
                forall|id: u128| #[trigger] reached.contains_key(id) ==> found@.contains_key(id),
                forall|i: int| 0 <= i < next ==> found@.contains_key(#[trigger] keys[i]),
                forall|id: u128| #[trigger]
                    found@.contains_key(id) ==> reached.contains_key(id) || before.leads_marked(
                        epoch,
                        id,
                    ),
                forall|id: u128| #[trigger]
                    marked@.contains_key(id) ==> before.marked_with(epoch, id),
            decreases count - next,
        {
            let (id, _) = marked.entry_at(next);
            assert(keys[next as int] == id);
            let ghost then = found@;
            match crate::reach::collect_nodes(
                &self.trees.nodes,
                MetadataNodeId(id),
                0,
                &mut found,
                block_size,
            ) {
                Ok(()) => {},
                Err(error) => {
                    assert(false);
                    return Err(error);
                },
            }
            assert(reaches(before.nodes(), id, id));
            proof {
                assert(marked@.contains_key(id));
                assert(before.marked_with(epoch, id));
            }
            next = next + 1;
        }
        let every = all_keys(&self.trees.nodes);
        let named_before = segments_named(&self.trees.nodes, &every);
        let named_after = segments_named(&self.trees.nodes, &found);
        let released = only_in_first(&named_before, &named_after);
        let shards = self.shards_needed(from);
        self.trees.nodes.retain_keys(&found);
        self.keyspace_catalog_shards.retain_keys(&shards);
        let deleted = keys_between(&self.deleted_device_heads, from, u64::MAX);
        self.deleted_device_heads.retain_keys(&deleted);
        let forks = keys_between(&self.fork_records, from, u64::MAX);
        self.fork_records.retain_keys(&forks);
        let deletes = keys_between(&self.delete_records, from, u64::MAX);
        self.delete_records.retain_keys(&deletes);
        let groups = keys_between(&self.commit_groups, from, u64::MAX);
        self.commit_groups.retain_keys(&groups);
        self.shard_commits = rows_between(&self.shard_commits, from, u64::MAX);
        self.keyspace_commits = rows_between(&self.keyspace_commits, from, u64::MAX);
        self.file_commits = rows_between(&self.file_commits, from, u64::MAX);
        self.metadata_last_mark_epoch.retain_keys(&found);
        if self.history_floor < from {
            self.history_floor = from;
        }
        proof {
            assert forall|id: u128| #[trigger] before.needs_node(from, id) implies found@.contains_key(
                id,
            ) by {
                let root = choose|root: u128| #[trigger]
                    before.needs_root(from, root) && reaches(before.nodes(), root, id);
                assert(needed@.contains_key(root));
                assert(reached.contains_key(id));
            }
            assert forall|id: u128| #[trigger] self.nodes().contains_key(id) <==> found@.contains_key(
                id,
            ) by {}
            assert forall|id: u128| #[trigger] marked@.contains_key(id) implies found@.contains_key(
                id,
            ) by {
                assert(keys.contains(id));
                let i = keys.index_of(id);
                assert(found@.contains_key(keys[i]));
            }
            assert forall|id: u128| #[trigger]
                before.nodes().contains_key(id) && before.metadata_last_mark_epoch@.contains_key(id)
                    && before.metadata_last_mark_epoch@[id] == epoch implies
                self.nodes().contains_key(id) by {
                assert(marked@.contains_key(id));
                assert(found@.contains_key(id));
            }
            assert(self.swept_from(&before, from));
            assert forall|id: u128| #[trigger] self.nodes().contains_key(id) implies
                before.needs_node(from, id) || before.leads_marked(epoch, id) by {
                assert(found@.contains_key(id));
                if reached.contains_key(id) {
                    let root = choose|root: u128| #[trigger]
                        needed@.contains_key(root) && reaches(before.nodes(), root, id);
                    assert(before.needs_root(from, root));
                }
            }
            lemma_swept_wf(before, *self, from, found@, block_size@);
            assert forall|id: u128| names_segment(before.nodes(), found@, id)
                <==> crate::export_state::any_node_names(self.nodes(), id) by {
                if names_segment(before.nodes(), found@, id) {
                    let node = choose|node: u128| #[trigger]
                        found@.contains_key(node) && before.nodes().contains_key(node)
                            && crate::reach::node_names(before.nodes()[node], id);
                    assert(self.nodes().contains_key(node));
                }
                if crate::export_state::any_node_names(self.nodes(), id) {
                    let node = choose|node: u128| #[trigger]
                        self.nodes().contains_key(node) && crate::reach::node_names(
                            self.nodes()[node],
                            id,
                        );
                    assert(found@.contains_key(node));
                }
            }
            assert forall|id: u128| names_segment(before.nodes(), every@, id)
                <==> crate::export_state::any_node_names(before.nodes(), id) by {
                if names_segment(before.nodes(), every@, id) {
                    let node = choose|node: u128| #[trigger]
                        every@.contains_key(node) && before.nodes().contains_key(node)
                            && crate::reach::node_names(before.nodes()[node], id);
                    assert(before.nodes().contains_key(node));
                }
                if crate::export_state::any_node_names(before.nodes(), id) {
                    let node = choose|node: u128| #[trigger]
                        before.nodes().contains_key(node) && crate::reach::node_names(
                            before.nodes()[node],
                            id,
                        );
                    assert(every@.contains_key(node));
                }
            }
            assert forall|id: u128|
                #![trigger crate::export_state::any_node_names(before.nodes(), id)]
                #![trigger released@.contains(SegmentId(id))]
                released@.contains(SegmentId(id)) <==> crate::export_state::any_node_names(
                    before.nodes(),
                    id,
                ) && !crate::export_state::any_node_names(self.nodes(), id) by {
                assert(named_before@.contains_key(id) <==> names_segment(
                    before.nodes(),
                    every@,
                    id,
                ));
                assert(named_after@.contains_key(id) <==> names_segment(
                    before.nodes(),
                    found@,
                    id,
                ));
            }
        }
        Ok(released)
    }
}

/// The keys that one set has and another lacks.
pub(crate) fn only_in_first(first: &IdMap<()>, second: &IdMap<()>) -> (only: Vec<SegmentId>)
    ensures
        crate::custodian::ids_ascend(only@),
        forall|id: u128|
            #![trigger first@.contains_key(id)]
            only@.contains(SegmentId(id)) <==> first@.contains_key(id) && !second@.contains_key(id),
{
    let mut only: Vec<SegmentId> = Vec::new();
    let count: usize = first.len();
    let ghost keys = first.keys();
    let mut next: usize = 0;
    while next < count
        invariant
            next <= count,
            count == keys.len(),
            keys == first.keys(),
            is_walk(keys, first@),
            crate::custodian::ids_ascend(only@),
            forall|i: int|
                0 <= i < only@.len() ==> keys.take(next as int).contains((#[trigger] only@[i]).0),
            forall|id: u128|
                only@.contains(SegmentId(id)) <==> #[trigger] keys.take(next as int).contains(id)
                    && !second@.contains_key(id),
        decreases count - next,
    {
        let ghost then = only@;
        let (id, _) = first.entry_at(next);
        if !second.contains_key(id) {
            only.push(SegmentId(id));
        }
        proof {
            crate::export_rows::lemma_taken(keys, next as int);
            assert forall|i: int| 0 <= i < then.len() implies (#[trigger] then[i]).0 < id by {
                let earlier = keys.take(next as int);
                let at = earlier.index_of(then[i].0);
                assert(keys[at] == then[i].0);
            }
            assert forall|i: int| 0 <= i < only@.len() implies keys.take(next + 1).contains(
                (#[trigger] only@[i]).0,
            ) by {
                if i < then.len() {
                    assert(only@[i] == then[i]);
                    assert(keys.take(next as int).contains(then[i].0));
                }
            }
            assert forall|k: u128|
                only@.contains(SegmentId(k)) <==> #[trigger] keys.take(next + 1).contains(k)
                    && !second@.contains_key(k) by {
                if then.contains(SegmentId(k)) {
                    let i = then.index_of(SegmentId(k));
                    assert(only@[i] == SegmentId(k));
                }
                if k == id && !second@.contains_key(id) {
                    assert(only@[only@.len() - 1] == SegmentId(k));
                }
                if only@.contains(SegmentId(k)) && !then.contains(SegmentId(k)) {
                    let i = only@.index_of(SegmentId(k));
                    if i < then.len() {
                        assert(then[i] == SegmentId(k));
                    }
                }
            }
        }
        next = next + 1;
    }
    proof {
        assert(keys.take(next as int) =~= keys);
        assert forall|id: u128|
            #![trigger first@.contains_key(id)]
            only@.contains(SegmentId(id)) <==> first@.contains_key(id) && !second@.contains_key(
                id,
            ) by {
            assert(keys.take(next as int).contains(id) <==> first@.contains_key(id));
        }
    }
    only
}

/// The rows that are kept were there.
proof fn lemma_between_part<T: OfCommit>(rows: Seq<T>, from: u64, to: u64)
    ensures
        forall|i: int|
            0 <= i < between(rows, from, to).len() ==> rows.contains(
                #[trigger] between(rows, from, to)[i],
            ),
    decreases rows.len(),
{
    if rows.len() > 0 {
        let shorter = rows.drop_last();
        lemma_between_part(shorter, from, to);
        let kept = between(rows, from, to);
        let less = between(shorter, from, to);
        assert forall|i: int| 0 <= i < kept.len() implies rows.contains(#[trigger] kept[i]) by {
            if i < less.len() {
                assert(shorter.contains(less[i]));
                let j = shorter.index_of(less[i]);
                assert(rows[j] == kept[i]);
            } else {
                assert(rows[rows.len() - 1] == kept[i]);
            }
        }
    }
}

/// All that needed roots lead to is kept.
proof fn lemma_keeps_below(
    before: MetadataInner,
    after: MetadataInner,
    from: u64,
    roots: Seq<MetadataNodeId>,
)
    requires
        after.swept_from(&before, from),
        forall|s: int| 0 <= s < roots.len() ==> before.needs_root(from, (#[trigger] roots[s]).0),
    ensures
        keeps_below(before.nodes(), after.nodes(), roots),
{
    assert forall|s: int, n: u128|
        #![trigger roots[s], reaches(before.nodes(), roots[s].0, n)]
        0 <= s < roots.len() && reaches(before.nodes(), roots[s].0, n) implies
        after.nodes().contains_key(n) && after.nodes()[n] == before.nodes()[n] by {
        assert(before.needs_root(from, roots[s].0));
        assert(before.needs_node(from, n));
    }
}

#[verifier::rlimit(60)]
#[verifier::spinoff_prover]
proof fn lemma_swept_wf(
    before: MetadataInner,
    after: MetadataInner,
    from: u64,
    found: Map<u128, ()>,
    block_size: u64,
)
    requires
        before.devices_wf(block_size),
        before.files_wf(block_size),
        after.swept_from(&before, from),
        closed_down(before.nodes(), found, 0),
        forall|id: u128| #[trigger] after.nodes().contains_key(id) <==> found.contains_key(id),
        before.needed_roots_stored(from),
    ensures
        after.devices_wf(block_size),
        after.files_wf(block_size),
{
    let nodes = after.nodes();
    let old_nodes = before.nodes();
    let specs = after.device_specs@;
    assert forall|id: u128| #[trigger] nodes.contains_key(id) implies node_wf(
        nodes,
        id,
        block_size,
    ) && id < after.trees.next_metadata_node_id by {
        assert(old_nodes.contains_key(id));
        assert(node_wf(old_nodes, id, block_size));
        match old_nodes[id].kind {
            MetadataNodeKind::Leaf { .. } => {},
            MetadataNodeKind::Internal { children } => {
                assert(found.contains_key(id));
                assert forall|i: int| 0 <= i < children@.len() implies nodes.contains_key(
                    (#[trigger] children@[i]).node_id.0,
                ) && nodes[children@[i].node_id.0] == old_nodes[children@[i].node_id.0] by {
                    assert(found.contains_key(children@[i].node_id.0));
                    assert(after.nodes().contains_key(children@[i].node_id.0));
                }
                assert(children_wf(nodes, children@, nodes[id].covered_range, id));
            },
        }
    }
    assert(after.trees.wf(block_size));
    assert forall|id: u128| #[trigger] after.device_heads@.contains_key(id) implies head_wf(
        nodes,
        specs,
        after.device_heads@[id],
        id,
        block_size,
    ) by {
        let head = before.device_heads@[id];
        assert(head_wf(old_nodes, specs, head, id, block_size));
        lemma_head_roots_needed(before, from, head.shard_roots@, id, false);
        lemma_keeps_below(before, after, from, head.shard_roots@);
        lemma_device_kept_below(
            old_nodes,
            nodes,
            block_size,
            head.shard_roots@,
            specs[id].logical_blocks as int,
        );
    }
    assert forall|id: u128| #[trigger] after.deleted_device_heads@.contains_key(id) implies head_wf(
        nodes,
        specs,
        after.deleted_device_heads@[id],
        id,
        block_size,
    ) && !after.device_heads@.contains_key(id) by {
        let head = before.deleted_device_heads@[id];
        assert(before.deleted_device_heads@.contains_key(id));
        assert(head_wf(old_nodes, specs, head, id, block_size));
        lemma_head_roots_needed(before, from, head.shard_roots@, id, true);
        lemma_keeps_below(before, after, from, head.shard_roots@);
        lemma_device_kept_below(
            old_nodes,
            nodes,
            block_size,
            head.shard_roots@,
            specs[id].logical_blocks as int,
        );
    }
    lemma_between_part(before.shard_commits@, from, u64::MAX);
    assert forall|i: int| 0 <= i < after.shard_commits@.len() implies shard_commit_wf(
        nodes,
        after.device_heads@,
        #[trigger] after.shard_commits@[i],
    ) && shard_commit_wf(nodes, after.deleted_device_heads@, after.shard_commits@[i])
        && specs.contains_key(after.shard_commits@[i].device_id.0) by {
        let commit = after.shard_commits@[i];
        assert(before.shard_commits@.contains(commit));
        let j = before.shard_commits@.index_of(commit);
        assert(before.shard_commits@[j] == commit);
        assert(shard_commit_wf(old_nodes, before.device_heads@, before.shard_commits@[j]));
        assert(shard_commit_wf(old_nodes, before.deleted_device_heads@, before.shard_commits@[j]));
        assert(commit.names(NameKind::Root, commit.old_root.0));
        assert(commit.names(NameKind::Root, commit.new_root.0));
        lemma_needed_stays(before, after, from, commit.old_root.0);
        lemma_needed_stays(before, after, from, commit.new_root.0);
        let d = commit.device_id.0;
        if after.device_heads@.contains_key(d) {
            let roots = after.device_heads@[d].shard_roots@;
            assert(head_wf(nodes, specs, after.device_heads@[d], d, block_size));
            assert(nodes.contains_key(roots[commit.shard_id.0 as int].0));
        }
        if after.deleted_device_heads@.contains_key(d) {
            let roots = after.deleted_device_heads@[d].shard_roots@;
            assert(head_wf(nodes, specs, after.deleted_device_heads@[d], d, block_size));
            assert(nodes.contains_key(roots[commit.shard_id.0 as int].0));
        }
    }
    assert forall|id: u128| #[trigger] after.checkpoints@.contains_key(id) implies checkpoint_wf(
        nodes,
        specs,
        after.checkpoints@[id],
        block_size,
    ) by {
        let checkpoint = before.checkpoints@[id];
        assert(checkpoint_wf(old_nodes, specs, checkpoint, block_size));
        match checkpoint.roots {
            CheckpointRoots::BlockShard(roots) => {
                match checkpoint.owner {
                    MappingOwner::BlockDevice(device_id) => {
                        assert forall|s: int| 0 <= s < roots@.len() implies before.needs_root(
                            from,
                            (#[trigger] roots@[s]).0,
                        ) by {
                            assert(lists_node(roots@, roots@[s].0));
                            assert(checkpoint.names(NameKind::Root, roots@[s].0));
                            assert(before.checkpoints@.contains_key(id));
                        }
                        lemma_keeps_below(before, after, from, roots@);
                        lemma_device_kept_below(
                            old_nodes,
                            nodes,
                            block_size,
                            roots@,
                            specs[device_id.0].logical_blocks as int,
                        );
                    },
                    _ => {},
                }
            },
            _ => {},
        }
    }
    assert(after.devices_wf(block_size));
    assert forall|id: u128| #[trigger] after.keyspace_catalog_shards@.contains_key(id) implies id
        < after.next_keyspace_catalog_shard_id && catalog_shard_wf(
        nodes,
        after.keyspace_catalog_shards@[id],
        block_size,
        after.next_file_id,
    ) by {
        let shard = before.keyspace_catalog_shards@[id];
        assert(before.keyspace_catalog_shards@.contains_key(id));
        assert(before.needs_shard(from, id));
        assert(catalog_shard_wf(old_nodes, shard, block_size, before.next_file_id));
        assert forall|f: u128| #[trigger] shard.files@.contains_key(f) implies file_wf(
            nodes,
            shard.files@[f],
            f,
            block_size,
            after.next_file_id,
        ) by {
            assert(file_wf(old_nodes, shard.files@[f], f, block_size, before.next_file_id));
            let root = shard.files@[f].head.root.0;
            assert(shard.names(NameKind::Root, root));
            assert(before.needed_shard_names(from, root));
            assert(before.needs_root(from, root));
            lemma_needed_stays(before, after, from, root);
        }
    }
    assert forall|id: u128| #[trigger] after.keyspace_heads@.contains_key(id) implies
        catalog_roots_wf(
        after.keyspace_catalog_shards@,
        after.keyspace_heads@[id].shard_roots@,
    ) by {
        let roots = before.keyspace_heads@[id].shard_roots@;
        assert(catalog_roots_wf(before.keyspace_catalog_shards@, roots));
        assert forall|i: int| 0 <= i < roots.len() implies
            after.keyspace_catalog_shards@.contains_key((#[trigger] roots[i]).0) by {
            assert(lists_shard(roots, roots[i].0));
            assert(before.keyspace_heads@[id].names(NameKind::Shard, roots[i].0));
            assert(map_names(before.keyspace_heads@, NameKind::Shard, roots[i].0));
            assert(before.needs_shard(from, roots[i].0));
        }
    }
    assert forall|id: u128| #[trigger] after.keyspace_roots@.contains_key(id) implies
        catalog_roots_wf(
        after.keyspace_catalog_shards@,
        after.keyspace_roots@[id].shard_roots@,
    ) by {
        let roots = before.keyspace_roots@[id].shard_roots@;
        assert(catalog_roots_wf(before.keyspace_catalog_shards@, roots));
        assert forall|i: int| 0 <= i < roots.len() implies
            after.keyspace_catalog_shards@.contains_key((#[trigger] roots[i]).0) by {
            assert(lists_shard(roots, roots[i].0));
            assert(before.keyspace_roots@[id].names(NameKind::Shard, roots[i].0));
            assert(map_names(before.keyspace_roots@, NameKind::Shard, roots[i].0));
            assert(before.needs_shard(from, roots[i].0));
        }
    }
    assert(after.files_wf(block_size));
}

proof fn lemma_head_roots_needed(
    before: MetadataInner,
    from: u64,
    roots: Seq<MetadataNodeId>,
    id: u128,
    deleted: bool,
)
    requires
        !deleted ==> before.device_heads@.contains_key(id) && before.device_heads@[id].shard_roots@
            == roots,
        deleted ==> before.deleted_device_heads@.contains_key(id)
            && before.deleted_device_heads@[id].shard_roots@ == roots
            && before.deleted_device_heads@[id].seq_of() >= from,
    ensures
        forall|s: int| 0 <= s < roots.len() ==> before.needs_root(from, (#[trigger] roots[s]).0),
{
    assert forall|s: int| 0 <= s < roots.len() implies before.needs_root(
        from,
        (#[trigger] roots[s]).0,
    ) by {
        assert(lists_node(roots, roots[s].0));
        if deleted {
            assert(before.deleted_device_heads@[id].names(NameKind::Root, roots[s].0));
            assert(map_names_from(
                before.deleted_device_heads@,
                from,
                NameKind::Root,
                roots[s].0,
            ));
        } else {
            assert(before.device_heads@[id].names(NameKind::Root, roots[s].0));
            assert(map_names(before.device_heads@, NameKind::Root, roots[s].0));
        }
    }
}

/// A root that is needed and stored is kept.
proof fn lemma_needed_stays(before: MetadataInner, after: MetadataInner, from: u64, root: u128)
    requires
        after.swept_from(&before, from),
        before.needs_root(from, root),
        before.nodes().contains_key(root),
    ensures
        after.nodes().contains_key(root),
        after.nodes()[root] == before.nodes()[root],
{
    assert(reaches(before.nodes(), root, root));
    assert(before.needs_node(from, root));
}

/// What a sweep leaves behind a mark was needed before the mark, or a node led to
/// it that had the mark's epoch already.
pub proof fn lemma_swept_of_marked(
    before: MetadataInner,
    marked: MetadataInner,
    after: MetadataInner,
    from: u64,
    report: MetadataMarkReport,
)
    requires
        marked == (MetadataInner {
            metadata_last_mark_epoch: marked.metadata_last_mark_epoch,
            segment_last_mark_epoch: marked.segment_last_mark_epoch,
            next_gc_epoch: marked.next_gc_epoch,
            ..before
        }),
        marked.marked_from(&before, from, report),
        after.nodes_swept(&marked, from, report.epoch),
    ensures
        after.nodes_swept(&before, from, report.epoch),
{
    let epoch = report.epoch;
    assert forall|id: u128| #[trigger] marked.needs_shard(from, id) == before.needs_shard(
        from,
        id,
    ) by {}
    assert forall|id: u128| #[trigger] marked.needs_root(from, id) implies before.needs_root(
        from,
        id,
    ) by {
        if marked.needed_shard_names(from, id) {
            let shard = choose|shard: u128| #[trigger]
                marked.keyspace_catalog_shards@.contains_key(shard) && marked.needs_shard(
                    from,
                    shard,
                ) && marked.keyspace_catalog_shards@[shard].names(NameKind::Root, id);
            assert(before.keyspace_catalog_shards@.contains_key(shard));
        }
    }
    assert forall|id: u128| #[trigger] after.nodes().contains_key(id) implies before.needs_node(
        from,
        id,
    ) || before.leads_marked(epoch, id) by {
        if marked.needs_node(from, id) {
            let root = choose|root: u128| #[trigger]
                marked.needs_root(from, root) && reaches(marked.nodes(), root, id);
            assert(before.needs_root(from, root));
        } else {
            let node = choose|node: u128| #[trigger]
                marked.marked_with(epoch, node) && reaches(marked.nodes(), node, id);
            if before.needs_node(from, node) {
                let root = choose|root: u128| #[trigger]
                    before.needs_root(from, root) && reaches(before.nodes(), root, node);
                lemma_reaches_through(before.nodes(), root, node, id);
            } else {
                assert(before.marked_with(epoch, node));
            }
        }
    }
}

/// What a node leads to leads on.
proof fn lemma_reaches_through(
    nodes: Map<u128, MetadataNode>,
    from: u128,
    middle: u128,
    to: u128,
)
    requires
        reaches(nodes, from, middle),
        reaches(nodes, middle, to),
    ensures
        reaches(nodes, from, to),
    decreases from,
{
    if from != middle {
        if let MetadataNodeKind::Internal { children } = nodes[from].kind {
            let i = choose|i: int|
                0 <= i < children@.len() && (#[trigger] children@[i]).node_id.0 < from && reaches(
                    nodes,
                    children@[i].node_id.0,
                    middle,
                );
            lemma_reaches_through(nodes, children@[i].node_id.0, middle, to);
            assert(children@[i].node_id.0 < from);
        }
    }
}

} // verus!
