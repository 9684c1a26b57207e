//! Exporting the metadata of a commit.
use vstd::prelude::*;

use crate::device_history::roots_at;
use crate::device_trees::{device_block_at, lemma_device_kept_below};
use crate::error::StorageError;
use crate::export::{
    commits_kept, epochs_kept, floors_of, heads_rewound, numbered, numbers_end, rows_picked,
    ExportFloors,
};
use crate::export_cursor::DurableExportCursor;
use crate::export_rows::{
    between, list_names, lists_node, lists_shard, map_names, NameKind, Names, OfCommit,
};
use crate::id::{CommitSeq, DeviceId, KeyspaceCatalogShardId, KeyspaceId, MetadataNodeId};
use crate::keyspace_history::catalog_at;
use crate::metadata::{head_wf, FileWriterEpoch, MetadataInner};
use crate::metadata_records::{KeyspaceCommit, MetadataNode, ShardCommit};
use crate::reach::{names_segment, node_names, reaches, segments_named};

verus! {

/// Whether some node names a segment.
pub open spec fn any_node_names(nodes: Map<u128, MetadataNode>, segment_id: u128) -> bool {
    exists|id: u128| #[trigger] nodes.contains_key(id) && node_names(nodes[id], segment_id)
}

/// Whether one state is the export of another at a commit, without what an
/// earlier export holds.
pub open spec fn exported(
    before: MetadataInner,
    after: MetadataInner,
    target: u64,
    previous: Option<&DurableExportCursor>,
) -> bool {
    let floors = floors_of(previous);
    &&& heads_rewound(before, after, target)
    &&& commits_kept(before, after, floors, target)
    &&& rows_picked(
        before.keyspace_roots@,
        after.keyspace_roots@,
        |id: u128|
            id >= floors.keyspace_root_id && map_names(
                after.checkpoints@,
                NameKind::KeyspaceRoot,
                id,
            ),
    )
    &&& rows_picked(
        before.keyspace_catalog_shards@,
        after.keyspace_catalog_shards@,
        |id: u128| id >= floors.keyspace_catalog_shard_id && after.names_shard(id),
    )
    &&& rows_picked(
        before.nodes(),
        after.nodes(),
        |id: u128| id >= floors.metadata_node_id && after.leads_to(before.nodes(), id),
    )
    &&& rows_picked(
        before.device_specs@,
        after.device_specs@,
        |id: u128| after.names_device(id),
    )
    &&& if previous is Some {
        &&& after.file_writer_epochs == before.file_writer_epochs
        &&& after.metadata_last_mark_epoch == before.metadata_last_mark_epoch
        &&& after.segment_last_mark_epoch == before.segment_last_mark_epoch
    } else {
        &&& after.file_writer_epochs@ == epochs_kept(before.file_writer_epochs@, after)
        &&& rows_picked(
            before.metadata_last_mark_epoch@,
            after.metadata_last_mark_epoch@,
            |id: u128| after.nodes().contains_key(id),
        )
        &&& rows_picked(
            before.segment_last_mark_epoch@,
            after.segment_last_mark_epoch@,
            |id: u128| any_node_names(after.nodes(), id),
        )
    }
    &&& numbered(after, target, previous)
    &&& after.append_streams == before.append_streams
    &&& after.append_publish_in_flight == before.append_publish_in_flight
    &&& after.append_publish_tickets == before.append_publish_tickets
    &&& after.keyspace_births == before.keyspace_births
    &&& after.next_append_stream_id == before.next_append_stream_id
    &&& after.next_append_ticket_id == before.next_append_ticket_id
    &&& after.next_append_publish_ticket_id == before.next_append_publish_ticket_id
    &&& after.next_gc_epoch == before.next_gc_epoch
    &&& after.history_floor == before.history_floor
}

/// Whether the rows name only what is stored, each as its owner allows.
pub open spec fn rows_complete(rows: MetadataInner) -> bool {
    &&& rows.owners_sound()
    &&& forall|id: u128| #[trigger]
        map_names(rows.checkpoints@, NameKind::KeyspaceRoot, id)
            ==> rows.keyspace_roots@.contains_key(id)
    &&& forall|id: u128| #[trigger]
        rows.names_shard(id) ==> rows.keyspace_catalog_shards@.contains_key(id)
    &&& forall|id: u128| #[trigger] rows.names_root(id) ==> rows.nodes().contains_key(id)
}

/// Fewer rows name less.
proof fn lemma_fewer_map_names<T: Names>(
    more: Map<u128, T>,
    fewer: Map<u128, T>,
    kind: NameKind,
    id: u128,
)
    requires
        forall|key: u128| #[trigger]
            fewer.contains_key(key) ==> more.contains_key(key) && fewer[key] == more[key],
        map_names(fewer, kind, id),
    ensures
        map_names(more, kind, id),
{
    let key = choose|key: u128| #[trigger] fewer.contains_key(key) && fewer[key].names(kind, id);
    assert(more.contains_key(key));
}

proof fn lemma_fewer_list_names<T: Names + OfCommit>(
    rows: Seq<T>,
    from: u64,
    to: u64,
    kind: NameKind,
    id: u128,
)
    requires
        list_names(between(rows, from, to), kind, id),
    ensures
        list_names(rows, kind, id),
    decreases rows.len(),
{
    if rows.len() > 0 {
        let kept = between(rows, from, to);
        let i = choose|i: int| 0 <= i < kept.len() && (#[trigger] kept[i]).names(kind, id);
        let shorter = between(rows.drop_last(), from, to);
        if i < shorter.len() {
            assert(shorter[i].names(kind, id));
            lemma_fewer_list_names(rows.drop_last(), from, to, kind, id);
            let less = rows.drop_last();
            let j = choose|j: int| 0 <= j < less.len() && (#[trigger] less[j]).names(kind, id);
            assert(rows[j].names(kind, id));
        } else {
            assert(rows[rows.len() - 1].names(kind, id));
        }
    }
}

/// An earlier root of a device is one that it has, or one that a commit took
/// away.
proof fn lemma_earlier_root(
    roots: Seq<MetadataNodeId>,
    commits: Seq<ShardCommit>,
    device_id: DeviceId,
    at: u64,
    id: u128,
)
    requires
        lists_node(roots_at(roots, commits, device_id, at), id),
        forall|i: int|
            0 <= i < commits.len() && (#[trigger] commits[i]).device_id == device_id
                ==> commits[i].shard_id.0 < roots.len(),
    ensures
        lists_node(roots, id) || list_names(commits, NameKind::Root, id),
    decreases commits.len(),
{
    if commits.len() > 0 {
        let last = commits.last();
        let undone = if last.device_id == device_id && last.commit_seq.0 > at {
            roots.update(last.shard_id.0 as int, last.old_root)
        } else {
            roots
        };
        let shorter = commits.drop_last();
        assert(commits[commits.len() - 1] == last);
        assert forall|i: int|
            0 <= i < shorter.len() && (#[trigger] shorter[i]).device_id == device_id implies
            shorter[i].shard_id.0 < roots.len() by {
            assert(shorter[i] == commits[i]);
        }
        lemma_earlier_root(undone, shorter, device_id, at, id);
        if list_names(shorter, NameKind::Root, id) {
            let i = choose|i: int|
                0 <= i < shorter.len() && (#[trigger] shorter[i]).names(NameKind::Root, id);
            assert(commits[i].names(NameKind::Root, id));
        } else {
            let i = choose|i: int| 0 <= i < undone.len() && (#[trigger] undone[i]).0 == id;
            if last.device_id == device_id && last.commit_seq.0 > at && i == last.shard_id.0 {
                assert(commits[commits.len() - 1].names(NameKind::Root, id));
            } else {
                assert(roots[i].0 == id);
            }
        }
    }
}

proof fn lemma_earlier_shard(
    roots: Seq<KeyspaceCatalogShardId>,
    commits: Seq<KeyspaceCommit>,
    keyspace_id: KeyspaceId,
    at: u64,
    id: u128,
)
    requires
        lists_shard(catalog_at(roots, commits, keyspace_id, at), id),
        crate::keyspace_history::commits_fit(commits, keyspace_id, at, roots.len() as int),
    ensures
        lists_shard(roots, id) || list_names(commits, NameKind::Shard, id),
    decreases commits.len(),
{
    if commits.len() > 0 {
        let last = commits.last();
        let undone = if last.keyspace_id == keyspace_id && last.commit_seq.0 > at {
            roots.update(last.shard_index as int, last.old_shard)
        } else {
            roots
        };
        let shorter = commits.drop_last();
        assert(commits[commits.len() - 1] == last);
        assert forall|i: int|
            0 <= i < shorter.len() && (#[trigger] shorter[i]).keyspace_id == keyspace_id
                && shorter[i].commit_seq.0 > at implies shorter[i].shard_index < roots.len() by {
            assert(shorter[i] == commits[i]);
        }
        lemma_earlier_shard(undone, shorter, keyspace_id, at, id);
        if list_names(shorter, NameKind::Shard, id) {
            let i = choose|i: int|
                0 <= i < shorter.len() && (#[trigger] shorter[i]).names(NameKind::Shard, id);
            assert(commits[i].names(NameKind::Shard, id));
        } else {
            let i = choose|i: int| 0 <= i < undone.len() && (#[trigger] undone[i]).0 == id;
            if last.keyspace_id == keyspace_id && last.commit_seq.0 > at && i
                == last.shard_index {
                assert(commits[commits.len() - 1].names(NameKind::Shard, id));
            } else {
                assert(roots[i].0 == id);
            }
        }
    }
}

/// A rewound state names no other roots.
proof fn lemma_rewound_roots(
    before: MetadataInner,
    after: MetadataInner,
    target: u64,
    floors: ExportFloors,
    id: u128,
    block_size: u64,
)
    requires
        before.devices_wf(block_size),
        heads_rewound(before, after, target),
        commits_kept(before, after, floors, target),
        forall|key: u128| #[trigger]
            after.keyspace_catalog_shards@.contains_key(key)
                ==> before.keyspace_catalog_shards@.contains_key(key)
                && after.keyspace_catalog_shards@[key] == before.keyspace_catalog_shards@[key],
        after.names_root(id),
    ensures
        before.names_root(id),
{
    let kind = NameKind::Root;
    if map_names(after.device_heads@, kind, id) {
        let key = choose|key: u128| #[trigger]
            after.device_heads@.contains_key(key) && after.device_heads@[key].names(kind, id);
        assert(before.head_at(key, target, after.device_heads@[key]));
        let now = if before.device_heads@.contains_key(key) {
            before.device_heads@[key]
        } else {
            before.deleted_device_heads@[key]
        };
        if now.latest_commit.0 > target {
            assert(before.live_at(key, target));
            assert forall|i: int|
                0 <= i < before.shard_commits@.len() && (
                #[trigger] before.shard_commits@[i]).device_id == DeviceId(key) implies
                before.shard_commits@[i].shard_id.0 < now.shard_roots@.len() by {
                let commit = before.shard_commits@[i];
                assert(crate::metadata::shard_commit_wf(
                    before.nodes(),
                    before.device_heads@,
                    commit,
                ));
                assert(crate::metadata::shard_commit_wf(
                    before.nodes(),
                    before.deleted_device_heads@,
                    commit,
                ));
            }
            lemma_earlier_root(
                now.shard_roots@,
                before.shard_commits@,
                DeviceId(key),
                target,
                id,
            );
        }
        if lists_node(now.shard_roots@, id) {
            if before.device_heads@.contains_key(key) {
                assert(map_names(before.device_heads@, kind, id));
            } else {
                assert(before.live_at(key, target));
                assert(before.deleted_device_heads@.contains_key(key));
                assert(map_names(before.deleted_device_heads@, kind, id));
            }
        }
    } else if map_names(after.deleted_device_heads@, kind, id) {
        lemma_fewer_map_names(
            before.deleted_device_heads@,
            after.deleted_device_heads@,
            kind,
            id,
        );
    } else if map_names(after.fork_records@, kind, id) {
        lemma_fewer_map_names(before.fork_records@, after.fork_records@, kind, id);
    } else if map_names(after.delete_records@, kind, id) {
        lemma_fewer_map_names(before.delete_records@, after.delete_records@, kind, id);
    } else if list_names(after.shard_commits@, kind, id) {
        lemma_fewer_list_names(before.shard_commits@, floors.commit_seq, target, kind, id);
    } else if list_names(after.file_commits@, kind, id) {
        lemma_fewer_list_names(before.file_commits@, floors.commit_seq, target, kind, id);
    } else if map_names(after.commit_groups@, kind, id) {
        lemma_fewer_map_names(before.commit_groups@, after.commit_groups@, kind, id);
    } else if map_names(after.checkpoints@, kind, id) {
        lemma_fewer_map_names(before.checkpoints@, after.checkpoints@, kind, id);
    } else {
        lemma_fewer_map_names(
            before.keyspace_catalog_shards@,
            after.keyspace_catalog_shards@,
            kind,
            id,
        );
    }
}

/// A rewound state names no other catalog shards.
proof fn lemma_rewound_shards(
    before: MetadataInner,
    after: MetadataInner,
    target: u64,
    floors: ExportFloors,
    id: u128,
)
    requires
        heads_rewound(before, after, target),
        commits_kept(before, after, floors, target),
        forall|key: u128| !#[trigger] before.keyspace_history_broken(key, target),
        forall|key: u128| #[trigger]
            after.keyspace_roots@.contains_key(key) ==> before.keyspace_roots@.contains_key(key)
                && after.keyspace_roots@[key] == before.keyspace_roots@[key],
        after.names_shard(id),
    ensures
        before.names_shard(id),
{
    let kind = NameKind::Shard;
    if map_names(after.keyspace_heads@, kind, id) {
        let key = choose|key: u128| #[trigger]
            after.keyspace_heads@.contains_key(key) && after.keyspace_heads@[key].names(kind, id);
        assert(before.keyspace_live_at(key, target));
        assert(before.keyspace_head_at(key, target, after.keyspace_heads@[key]));
        let now = before.keyspace_heads@[key];
        if now.latest_commit.0 > target {
            assert(!before.keyspace_history_broken(key, target));
            lemma_earlier_shard(
                now.shard_roots@,
                before.keyspace_commits@,
                KeyspaceId(key),
                target,
                id,
            );
        }
        if lists_shard(now.shard_roots@, id) {
            assert(before.keyspace_heads@.contains_key(key));
            assert(map_names(before.keyspace_heads@, kind, id));
        }
    } else if list_names(after.keyspace_commits@, kind, id) {
        lemma_fewer_list_names(before.keyspace_commits@, floors.commit_seq, target, kind, id);
    } else {
        lemma_fewer_map_names(before.keyspace_roots@, after.keyspace_roots@, kind, id);
    }
}

/// Two states that name the same files keep the same epochs.
proof fn lemma_same_epochs(epochs: Seq<FileWriterEpoch>, a: MetadataInner, b: MetadataInner)
    requires
        forall|k: KeyspaceId, f: u128| #[trigger] a.names_file(k, f) == b.names_file(k, f),
    ensures
        epochs_kept(epochs, a) == epochs_kept(epochs, b),
    decreases epochs.len(),
{
    if epochs.len() > 0 {
        lemma_same_epochs(epochs.drop_last(), a, b);
        assert(a.names_file(epochs.last().keyspace_id, epochs.last().file_id.0) == b.names_file(
            epochs.last().keyspace_id,
            epochs.last().file_id.0,
        ));
    }
}

proof fn lemma_kept_epochs_named(epochs: Seq<FileWriterEpoch>, of: MetadataInner)
    ensures
        forall|i: int|
            0 <= i < epochs_kept(epochs, of).len() ==> epochs.contains(
                #[trigger] epochs_kept(epochs, of)[i],
            ),
    decreases epochs.len(),
{
    if epochs.len() > 0 {
        let shorter = epochs.drop_last();
        lemma_kept_epochs_named(shorter, of);
        let kept = epochs_kept(epochs, of);
        let less = epochs_kept(shorter, of);
        assert forall|i: int| 0 <= i < kept.len() implies epochs.contains(#[trigger] kept[i]) by {
            if i < less.len() {
                assert(kept[i] == less[i]);
                assert(shorter.contains(less[i]));
                let j = shorter.index_of(less[i]);
                assert(epochs[j] == kept[i]);
            } else {
                assert(epochs[epochs.len() - 1] == kept[i]);
            }
        }
    }
}

impl MetadataInner {
    /// The metadata as it stood at a commit. With the cursor of an earlier
    /// export, rows that it has written are left out.
    #[verifier::rlimit(80)]
    #[verifier::spinoff_prover]
    pub fn metadata_through_commit(
        self,
        target: CommitSeq,
        previous: Option<&DurableExportCursor>,
        block_size: Ghost<u64>,
    ) -> (result: Result<MetadataInner, StorageError>)
        requires
            self.devices_wf(block_size@),
            self.files_wf(block_size@),
        ensures
            result matches Ok(after) ==> exported(self, after, target.0, previous),
            (exists|id: u128| #[trigger] self.keyspace_history_broken(id, target.0))
                ==> result is Err,
            target.0 == u64::MAX ==> result is Err,
            rows_complete(self) && target.0 < u64::MAX && !numbers_end(self) && (forall|id: u128|
                !#[trigger] self.keyspace_history_broken(id, target.0)) ==> result is Ok,
            result matches Err(error) ==> error is Corrupt || error is NotFound || error is Conflict,
    {
        let mut rows = self;
        let ghost before = self;
        let floors = crate::export::export_floors(previous);
        match rows.rewind_heads(target, block_size) {
            Ok(()) => {},
            Err(error) => return Err(error),
        }
        rows.keep_rows(&floors, target);
        proof {
            assert(heads_rewound(before, rows, target.0));
            assert(commits_kept(before, rows, floors, target.0));
            if rows_complete(before) {
                assert(rows.owners_sound());
            }
        }
        match rows.check_owners() {
            Ok(()) => {},
            Err(error) => return Err(error),
        }
        proof {
            if rows_complete(before) {
                assert forall|id: u128| #[trigger]
                    map_names(rows.checkpoints@, NameKind::KeyspaceRoot, id) implies
                    rows.keyspace_roots@.contains_key(id) by {
                    lemma_fewer_map_names(
                        before.checkpoints@,
                        rows.checkpoints@,
                        NameKind::KeyspaceRoot,
                        id,
                    );
                }
            }
        }
        match rows.keep_keyspace_roots(floors.keyspace_root_id) {
            Ok(()) => {},
            Err(error) => return Err(error),
        }
        proof {
            if rows_complete(before) {
                assert forall|id: u128| #[trigger] rows.names_shard(id) implies
                    rows.keyspace_catalog_shards@.contains_key(id) by {
                    lemma_rewound_shards(before, rows, target.0, floors, id);
                }
            }
        }
        match rows.keep_catalog(floors.keyspace_catalog_shard_id) {
            Ok(()) => {},
            Err(error) => return Err(error),
        }
        proof {
            if rows_complete(before) {
                assert forall|id: u128| #[trigger] rows.names_root(id) implies
                    rows.nodes().contains_key(id) by {
                    lemma_rewound_roots(before, rows, target.0, floors, id, block_size@);
                }
            }
        }
        let found = match rows.nodes_led_to(floors.metadata_node_id, block_size) {
            Ok(found) => found,
            Err(error) => return Err(error),
        };
        let ghost led = rows;
        let devices = rows.devices_named();
        rows.device_specs.retain_keys(&devices);
        let full = previous.is_none();
        if full {
            let segments = segments_named(&rows.trees.nodes, &found);
            rows.segment_last_mark_epoch.retain_keys(&segments);
            rows.metadata_last_mark_epoch.retain_keys(&found);
            let kept = rows.epochs_named();
            let ghost named = rows;
            rows.file_writer_epochs = kept;
            proof {
                lemma_kept_epochs_named(named.file_writer_epochs@, named);
                lemma_same_epochs(before.file_writer_epochs@, named, rows);
            }
        }
        let ghost staged = rows;
        rows.trees.nodes.retain_keys(&found);
        proof {
            assert forall|id: u128| #[trigger] rows.nodes().contains_key(id) <==> found@.contains_key(
                id,
            ) by {
                if found@.contains_key(id) {
                    let root = choose|root: u128| #[trigger]
                        led.names_root(root) && crate::reach::reaches(led.nodes(), root, id);
                    crate::reach::lemma_reaches_older(before.nodes(), root, id);
                }
            }
            assert forall|id: u128|
                names_segment(before.nodes(), found@, id) <==> any_node_names(rows.nodes(), id) by {
                if names_segment(before.nodes(), found@, id) {
                    let node = choose|node: u128| #[trigger]
                        found@.contains_key(node) && before.nodes().contains_key(node)
                            && node_names(before.nodes()[node], id);
                    assert(rows.nodes().contains_key(node));
                }
                if any_node_names(rows.nodes(), id) {
                    let node = choose|node: u128| #[trigger]
                        rows.nodes().contains_key(node) && node_names(rows.nodes()[node], id);
                    assert(found@.contains_key(node));
                }
            }
            if !numbers_end(before) {
                assert forall|id: u128| crate::export::epoch_files(
                    rows.file_writer_epochs@,
                ).contains(id) implies crate::export::epoch_files(
                    before.file_writer_epochs@,
                ).contains(id) by {
                    let kept = rows.file_writer_epochs@;
                    let i = choose|i: int|
                        0 <= i < kept.len() && (#[trigger] kept[i]).file_id.0 == id;
                    if full {
                        assert(before.file_writer_epochs@.contains(kept[i]));
                        let j = before.file_writer_epochs@.index_of(kept[i]);
                        assert(before.file_writer_epochs@[j].file_id.0 == id);
                    }
                }
                if rows.device_heads@.contains_key(u128::MAX) {
                    assert(before.live_at(u128::MAX, target.0));
                }
                if rows.keyspace_heads@.contains_key(u128::MAX) {
                    assert(before.keyspace_live_at(u128::MAX, target.0));
                }
                assert(!numbers_end(rows));
            }
        }
        let ghost whole = rows;
        match rows.number_rows(target, previous) {
            Ok(()) => {},
            Err(error) => return Err(error),
        }
        proof {
            if full {
                assert forall|k: KeyspaceId, f: u128| #[trigger]
                    whole.names_file(k, f) == rows.names_file(k, f) by {}
                lemma_same_epochs(before.file_writer_epochs@, whole, rows);
                assert forall|k: KeyspaceId, f: u128| #[trigger]
                    staged.names_file(k, f) == whole.names_file(k, f) by {}
                lemma_same_epochs(before.file_writer_epochs@, staged, whole);
            }
            assert forall|root: u128| #[trigger] led.names_root(root) == rows.names_root(
                root,
            ) by {}
            assert forall|id: u128| led.leads_to(before.nodes(), id) == rows.leads_to(
                before.nodes(),
                id,
            ) by {
                if led.leads_to(before.nodes(), id) {
                    let root = choose|root: u128| #[trigger]
                        led.names_root(root) && crate::reach::reaches(before.nodes(), root, id);
                    assert(rows.names_root(root));
                }
                if rows.leads_to(before.nodes(), id) {
                    let root = choose|root: u128| #[trigger]
                        rows.names_root(root) && crate::reach::reaches(before.nodes(), root, id);
                    assert(led.names_root(root));
                }
            }
            let floors = floors_of(previous);
            assert(rows_picked(
                before.nodes(),
                rows.nodes(),
                |id: u128| id >= floors.metadata_node_id && rows.leads_to(before.nodes(), id),
            ));
            assert forall|id: u128| #[trigger] led.names_device(id) == rows.names_device(id) by {}
            assert(rows_picked(
                before.device_specs@,
                rows.device_specs@,
                |id: u128| rows.names_device(id),
            ));
            assert(rows_picked(
                before.keyspace_catalog_shards@,
                rows.keyspace_catalog_shards@,
                |id: u128| id >= floors.keyspace_catalog_shard_id && rows.names_shard(id),
            ));
            assert(rows_picked(
                before.keyspace_roots@,
                rows.keyspace_roots@,
                |id: u128|
                    id >= floors.keyspace_root_id && map_names(
                        rows.checkpoints@,
                        NameKind::KeyspaceRoot,
                        id,
                    ),
            ));
            if full {
                assert(rows_picked(
                    before.metadata_last_mark_epoch@,
                    rows.metadata_last_mark_epoch@,
                    |id: u128| rows.nodes().contains_key(id),
                ));
                assert(rows_picked(
                    before.segment_last_mark_epoch@,
                    rows.segment_last_mark_epoch@,
                    |id: u128| any_node_names(rows.nodes(), id),
                ));
                assert(rows.file_writer_epochs@ == epochs_kept(before.file_writer_epochs@, rows));
            }
        }
        Ok(rows)
    }
}

/// A whole export holds each device as it was: every block of a device that
/// was there at the commit is where its roots of that time say.
pub proof fn law_export_keeps_devices(
    before: MetadataInner,
    after: MetadataInner,
    target: u64,
    device_id: DeviceId,
    block: int,
    block_size: u64,
)
    requires
        before.devices_wf(block_size),
        exported(before, after, target, None),
        before.live_at(device_id.0, target),
        0 <= block < before.blocks_of(device_id),
    ensures
        after.has_device(device_id),
        before.head_at(device_id.0, target, after.device_heads@[device_id.0]),
        device_block_at(after.nodes(), after.roots_of(device_id), block) == device_block_at(
            before.nodes(),
            after.roots_of(device_id),
            block,
        ),
{
    let roots = after.roots_of(device_id);
    assert(after.device_heads@.contains_key(device_id.0));
    assert(before.head_at(device_id.0, target, after.device_heads@[device_id.0]));
    before.lemma_roots_then(device_id, target, block_size);
    if before.device_heads@.contains_key(device_id.0) {
        assert(head_wf(
            before.nodes(),
            before.device_specs@,
            before.device_heads@[device_id.0],
            device_id.0,
            block_size,
        ));
    }
    assert forall|s: int, n: u128|
        #![trigger roots[s], reaches(before.nodes(), roots[s].0, n)]
        0 <= s < roots.len() && reaches(before.nodes(), roots[s].0, n) implies
        after.nodes().contains_key(n) && after.nodes()[n] == before.nodes()[n] by {
        let root = roots[s].0;
        assert(lists_node(roots, root));
        assert(after.device_heads@[device_id.0].names(NameKind::Root, root));
        assert(map_names(after.device_heads@, NameKind::Root, root));
        assert(after.names_root(root));
        crate::reach::lemma_reaches_older(before.nodes(), root, n);
        assert(after.leads_to(before.nodes(), n));
    }
    lemma_device_kept_below(
        before.nodes(),
        after.nodes(),
        block_size,
        roots,
        before.blocks_of(device_id),
    );
}

} // verus!
