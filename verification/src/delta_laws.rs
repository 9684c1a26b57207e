//! What a delta of file contents holds: every commit since the last export, and all
//! that these commits made.
use vstd::prelude::*;

use crate::coordinator::LocalCoordinator;
use crate::export_cursor::DurableExportCursor;
use crate::export_laws::{has_row, law_rows_between_are_kept};
use crate::export_rows::{
    NameKind, Names, OfCommit, any_between, any_row_between, list_names, lists_shard, map_names,
};
use crate::metadata::{FileWriterEpoch, LiveAppendStream};
use crate::metadata_records::{
    AppendStreamRunRecord, AppendStreamState, FileCommit, KeyspaceCommit, MetadataNodeKind,
};
use crate::native_api::AppendStream;
use crate::native_delta::{
    NativeMetadataDelta, exported_stream, new_root_reaches, records_through, stream_published_by,
    touched_epochs, touches_file,
};
use crate::reach::{lemma_reaches_older, names_segment, node_names, reaches};

verus! {

/// A delta has the commits from where the last export ended up to its point, and
/// none besides.
pub proof fn law_delta_has_the_commits(
    store: LocalCoordinator,
    previous: DurableExportCursor,
    target: u64,
    append_stream: Option<&AppendStream>,
    delta: NativeMetadataDelta,
    file_commit: FileCommit,
    keyspace_commit: KeyspaceCommit,
    group: u128,
)
    requires
        store.delta_made(previous, target, append_stream, delta),
    ensures
        has_row(delta.file_commits@, file_commit) <==> has_row(
            store.metadata.file_commits@,
            file_commit,
        ) && previous.next_commit_seq <= file_commit.commit_seq.0 <= target,
        has_row(delta.keyspace_commits@, keyspace_commit) <==> has_row(
            store.metadata.keyspace_commits@,
            keyspace_commit,
        ) && previous.next_commit_seq <= keyspace_commit.commit_seq.0 <= target,
        delta.commit_groups@.contains_key(group) <==> store.metadata.commit_groups@.contains_key(
            group,
        ) && previous.next_commit_seq <= store.metadata.commit_groups@[group].commit_seq.0
            <= target,
{
    let from = previous.next_commit_seq;
    law_rows_between_are_kept(store.metadata.file_commits@, from, target, file_commit);
    law_rows_between_are_kept(store.metadata.keyspace_commits@, from, target, keyspace_commit);
}

/// Whatever a new root of a file leads to, and no export has had, is in the delta,
/// with the segments that it names.
pub proof fn law_delta_has_every_new_node(
    store: LocalCoordinator,
    previous: DurableExportCursor,
    target: u64,
    append_stream: Option<&AppendStream>,
    delta: NativeMetadataDelta,
    commit: FileCommit,
    node: u128,
)
    requires
        store.delta_made(previous, target, append_stream, delta),
        has_row(store.metadata.file_commits@, commit),
        previous.next_commit_seq <= commit.commit_seq.0 <= target,
        reaches(store.nodes(), commit.new_root.0, node),
        node >= previous.next_metadata_node_id,
    ensures
        delta.metadata_nodes@.contains_key(node),
        store.nodes()[node].kind matches MetadataNodeKind::Leaf { entries, .. } ==> forall|e: int|
            0 <= e < entries@.len() ==> delta.referenced_segment_ids@.contains_key(
                (#[trigger] entries@[e]).segment_id.0,
            ),
{
    law_rows_between_are_kept(
        store.metadata.file_commits@,
        previous.next_commit_seq,
        target,
        commit,
    );
    let commits = store.delta_file_commits(previous, target);
    let i = choose|i: int| 0 <= i < commits.len() && #[trigger] commits[i] == commit;
    assert(commits[i].new_root == commit.new_root);
    assert(new_root_reaches(store.nodes(), commits, node));
    assert(delta.metadata_nodes@.contains_key(node));
    lemma_reaches_older(store.nodes(), commit.new_root.0, node);
    match store.nodes()[node].kind {
        MetadataNodeKind::Leaf { entries, .. } => {
            assert forall|e: int| 0 <= e < entries@.len() implies
                delta.referenced_segment_ids@.contains_key(
                (#[trigger] entries@[e]).segment_id.0,
            ) by {
                let segment = entries@[e].segment_id.0;
                assert(node_names(store.nodes()[node], segment));
                assert(names_segment(store.nodes(), delta.metadata_nodes@, segment));
            }
        },
        MetadataNodeKind::Internal { .. } => {},
    }
}

/// A keyspace in which a file was committed is in the delta, with each shard of its
/// catalog that no export has had.
pub proof fn law_delta_has_the_changed_keyspaces(
    store: LocalCoordinator,
    previous: DurableExportCursor,
    target: u64,
    append_stream: Option<&AppendStream>,
    delta: NativeMetadataDelta,
    commit: FileCommit,
    shard: int,
)
    requires
        store.delta_made(previous, target, append_stream, delta),
        has_row(store.metadata.file_commits@, commit),
        previous.next_commit_seq <= commit.commit_seq.0 <= target,
    ensures
        delta.keyspace_heads@.contains_key(commit.keyspace_id.0),
        ({
            let roots = delta.keyspace_heads@[commit.keyspace_id.0].shard_roots@;
            0 <= shard < roots.len() && roots[shard].0 >= previous.next_keyspace_catalog_shard_id
                ==> delta.keyspace_catalog_shards@.contains_key(roots[shard].0)
        }),
{
    law_rows_between_are_kept(
        store.metadata.file_commits@,
        previous.next_commit_seq,
        target,
        commit,
    );
    let commits = store.delta_file_commits(previous, target);
    let i = choose|i: int| 0 <= i < commits.len() && #[trigger] commits[i] == commit;
    let id = commit.keyspace_id.0;
    assert(commits[i].names(NameKind::Keyspace, id));
    assert(list_names(commits, NameKind::Keyspace, id));
    assert(store.delta_keyspaces(previous, target).contains_key(id));
    assert(delta.keyspace_heads@.contains_key(id));
    let roots = delta.keyspace_heads@[id].shard_roots@;
    if 0 <= shard < roots.len() && roots[shard].0 >= previous.next_keyspace_catalog_shard_id {
        assert(lists_shard(roots, roots[shard].0));
        assert(delta.keyspace_heads@[id].names(NameKind::Shard, roots[shard].0));
        assert(map_names(delta.keyspace_heads@, NameKind::Shard, roots[shard].0));
    }
}

/// A delta has the writer epochs of the files that were committed, and no others.
pub proof fn law_delta_has_the_epochs_of_its_files(
    store: LocalCoordinator,
    previous: DurableExportCursor,
    target: u64,
    append_stream: Option<&AppendStream>,
    delta: NativeMetadataDelta,
    epoch: FileWriterEpoch,
)
    requires
        store.delta_made(previous, target, append_stream, delta),
    ensures
        has_row(delta.file_writer_epochs@, epoch) <==> has_row(
            store.metadata.file_writer_epochs@,
            epoch,
        ) && exists|i: int|
            0 <= i < store.metadata.file_commits@.len() && (
            #[trigger] store.metadata.file_commits@[i]).keyspace_id == epoch.keyspace_id
                && store.metadata.file_commits@[i].file_id == epoch.file_id
                && previous.next_commit_seq <= store.metadata.file_commits@[i].commit_seq.0
                <= target,
{
    let all = store.metadata.file_commits@;
    let commits = store.delta_file_commits(previous, target);
    lemma_touched_epochs(store.metadata.file_writer_epochs@, commits, epoch);
    if touches_file(commits, epoch.keyspace_id, epoch.file_id.0) {
        let k = choose|k: int|
            0 <= k < commits.len() && (#[trigger] commits[k]).names(
                NameKind::File(epoch.keyspace_id),
                epoch.file_id.0,
            );
        law_rows_between_are_kept(all, previous.next_commit_seq, target, commits[k]);
        assert(has_row(commits, commits[k]));
        let i = choose|i: int| 0 <= i < all.len() && #[trigger] all[i] == commits[k];
        assert(all[i].keyspace_id == epoch.keyspace_id);
    }
    if exists|i: int|
        0 <= i < all.len() && (#[trigger] all[i]).keyspace_id == epoch.keyspace_id
            && all[i].file_id == epoch.file_id && previous.next_commit_seq
            <= all[i].commit_seq.0 <= target {
        let i = choose|i: int|
            0 <= i < all.len() && (#[trigger] all[i]).keyspace_id == epoch.keyspace_id
                && all[i].file_id == epoch.file_id && previous.next_commit_seq
                <= all[i].commit_seq.0 <= target;
        law_rows_between_are_kept(all, previous.next_commit_seq, target, all[i]);
        assert(has_row(all, all[i]));
        let k = choose|k: int| 0 <= k < commits.len() && #[trigger] commits[k] == all[i];
        assert(commits[k].names(NameKind::File(epoch.keyspace_id), epoch.file_id.0));
    }
}

proof fn lemma_touched_epochs(
    epochs: Seq<FileWriterEpoch>,
    commits: Seq<FileCommit>,
    epoch: FileWriterEpoch,
)
    ensures
        has_row(touched_epochs(epochs, commits), epoch) <==> has_row(epochs, epoch)
            && touches_file(commits, epoch.keyspace_id, epoch.file_id.0),
    decreases epochs.len(),
{
    let kept = touched_epochs(epochs, commits);
    if epochs.len() > 0 {
        let fewer = epochs.drop_last();
        let last = epochs.last();
        let less = touched_epochs(fewer, commits);
        lemma_touched_epochs(fewer, commits, epoch);
        assert(epochs[epochs.len() - 1] == last);
        if has_row(epochs, epoch) && touches_file(commits, epoch.keyspace_id, epoch.file_id.0) {
            let i = choose|i: int| 0 <= i < epochs.len() && #[trigger] epochs[i] == epoch;
            if i < fewer.len() {
                assert(fewer[i] == epoch);
                let k = choose|k: int| 0 <= k < less.len() && #[trigger] less[k] == epoch;
                assert(kept[k] == epoch);
            } else {
                assert(kept[kept.len() - 1] == epoch);
            }
        }
        if has_row(kept, epoch) {
            let k = choose|k: int| 0 <= k < kept.len() && #[trigger] kept[k] == epoch;
            if k < less.len() {
                assert(less[k] == epoch);
                let i = choose|i: int| 0 <= i < fewer.len() && #[trigger] fewer[i] == epoch;
                assert(epochs[i] == epoch);
            }
        }
    }
}

/// A stream is written down up to a place with the records that end by then, and no
/// others.
pub proof fn law_exported_stream_has_its_records(
    stream: LiveAppendStream,
    through: u64,
    state: AppendStreamState,
    record: AppendStreamRunRecord,
)
    requires
        exported_stream(stream, through, state),
    ensures
        has_row(state.records@, record) <==> has_row(stream.state.records@, record)
            && record.offset + record.len <= through,
        state.durable_through == through,
        state.reserved_tail == through,
        state.published_through == stream.state.published_through,
        state.writer_epoch == stream.state.writer_epoch,
        state.stream_id == stream.state.stream_id,
        state.keyspace_id == stream.state.keyspace_id,
        state.file_id == stream.state.file_id,
{
    lemma_records_through(stream.state.records@, through, record);
}

proof fn lemma_records_through(
    records: Seq<AppendStreamRunRecord>,
    through: u64,
    record: AppendStreamRunRecord,
)
    ensures
        has_row(records_through(records, through), record) <==> has_row(records, record)
            && record.offset + record.len <= through,
    decreases records.len(),
{
    let kept = records_through(records, through);
    if records.len() > 0 {
        let fewer = records.drop_last();
        let last = records.last();
        let less = records_through(fewer, through);
        lemma_records_through(fewer, through, record);
        assert(records[records.len() - 1] == last);
        if has_row(records, record) && record.offset + record.len <= through {
            let i = choose|i: int| 0 <= i < records.len() && #[trigger] records[i] == record;
            if i < fewer.len() {
                assert(fewer[i] == record);
                let k = choose|k: int| 0 <= k < less.len() && #[trigger] less[k] == record;
                assert(kept[k] == record);
            } else {
                assert(kept[kept.len() - 1] == record);
            }
        }
        if has_row(kept, record) {
            let k = choose|k: int| 0 <= k < kept.len() && #[trigger] kept[k] == record;
            if k < less.len() {
                assert(less[k] == record);
                let i = choose|i: int| 0 <= i < fewer.len() && #[trigger] fewer[i] == record;
                assert(records[i] == record);
            }
        }
    }
}

/// The delta of a publish has every stream that was published: one that ends where
/// a commit left its file, written down up to its durable end.
pub proof fn law_delta_has_the_published_streams(
    store: LocalCoordinator,
    previous: DurableExportCursor,
    target: u64,
    append_stream: Option<&AppendStream>,
    delta: NativeMetadataDelta,
    commit: FileCommit,
    id: u128,
)
    requires
        store.delta_made(previous, target, append_stream, delta),
        append_stream is Some,
        has_row(store.metadata.file_commits@, commit),
        previous.next_commit_seq <= commit.commit_seq.0 <= target,
        store.metadata.append_streams@.contains_key(id),
        store.metadata.append_streams@[id].state.keyspace_id == commit.keyspace_id,
        store.metadata.append_streams@[id].state.file_id == commit.file_id,
        store.metadata.append_streams@[id].state.published_through == commit.new_size,
    ensures
        exists|k: int|
            0 <= k < delta.append_streams@.len() && (
            #[trigger] delta.append_streams@[k]).stream_id.0 == id
                && delta.append_streams@[k].durable_through
                == store.metadata.append_streams@[id].state.durable_through
                && delta.append_streams@[k].published_through == commit.new_size
                && delta.append_streams@[k].writer_epoch
                == store.metadata.append_streams@[id].state.writer_epoch,
{
    law_rows_between_are_kept(
        store.metadata.file_commits@,
        previous.next_commit_seq,
        target,
        commit,
    );
    let commits = store.delta_file_commits(previous, target);
    let i = choose|i: int| 0 <= i < commits.len() && #[trigger] commits[i] == commit;
    let stream = store.metadata.append_streams@[id];
    assert(commits[i].keyspace_id == stream.state.keyspace_id);
    assert(stream_published_by(commits, stream));
    let k = choose|k: int|
        0 <= k < delta.append_streams@.len() && (#[trigger] delta.append_streams@[k]).stream_id.0
            == id;
    assert(exported_stream(stream, stream.state.durable_through, delta.append_streams@[k]));
}

/// There is no delta where since the last export a device was written, forked,
/// deleted or checkpointed, garbage was collected, or no file was committed.
pub proof fn law_delta_is_of_file_contents_alone(
    store: LocalCoordinator,
    previous: DurableExportCursor,
    target: u64,
    append_stream: Option<&AppendStream>,
    i: int,
    id: u128,
)
    ensures
        0 <= i < store.metadata.shard_commits@.len() && previous.next_commit_seq
            <= store.metadata.shard_commits@[i].commit_seq.0 <= target ==> store.delta_refused(
            previous,
            target,
            append_stream,
        ),
        store.metadata.fork_records@.contains_key(id) && previous.next_commit_seq
            <= store.metadata.fork_records@[id].commit_seq.0 <= target ==> store.delta_refused(
            previous,
            target,
            append_stream,
        ),
        store.metadata.delete_records@.contains_key(id) && previous.next_commit_seq
            <= store.metadata.delete_records@[id].commit_seq.0 <= target ==> store.delta_refused(
            previous,
            target,
            append_stream,
        ),
        store.metadata.checkpoints@.contains_key(id) && previous.next_commit_seq
            <= store.metadata.checkpoints@[id].commit_seq.0 <= target ==> store.delta_refused(
            previous,
            target,
            append_stream,
        ),
        previous.next_gc_epoch != store.metadata.next_gc_epoch ==> store.delta_refused(
            previous,
            target,
            append_stream,
        ),
        (forall|k: int|
            0 <= k < store.metadata.file_commits@.len() ==> !(previous.next_commit_seq <= (
            #[trigger] store.metadata.file_commits@[k]).commit_seq.0 <= target))
            ==> store.delta_refused(previous, target, append_stream),
{
    let from = previous.next_commit_seq;
    let all = store.metadata.file_commits@;
    if 0 <= i < store.metadata.shard_commits@.len() && from
        <= store.metadata.shard_commits@[i].commit_seq.0 <= target {
        assert(from <= store.metadata.shard_commits@[i].seq_of() <= target);
        assert(any_between(store.metadata.shard_commits@, from, target));
    }
    if store.metadata.fork_records@.contains_key(id) && from
        <= store.metadata.fork_records@[id].commit_seq.0 <= target {
        assert(from <= store.metadata.fork_records@[id].seq_of() <= target);
        assert(any_row_between(store.metadata.fork_records@, from, target));
    }
    if store.metadata.delete_records@.contains_key(id) && from
        <= store.metadata.delete_records@[id].commit_seq.0 <= target {
        assert(from <= store.metadata.delete_records@[id].seq_of() <= target);
        assert(any_row_between(store.metadata.delete_records@, from, target));
    }
    if store.metadata.checkpoints@.contains_key(id) && from
        <= store.metadata.checkpoints@[id].commit_seq.0 <= target {
        assert(from <= store.metadata.checkpoints@[id].seq_of() <= target);
        assert(any_row_between(store.metadata.checkpoints@, from, target));
    }
    if forall|k: int|
        0 <= k < all.len() ==> !(from <= (#[trigger] all[k]).commit_seq.0 <= target) {
        let commits = store.delta_file_commits(previous, target);
        if commits.len() > 0 {
            law_rows_between_are_kept(all, from, target, commits[0]);
            assert(has_row(commits, commits[0]));
            let k = choose|k: int| 0 <= k < all.len() && #[trigger] all[k] == commits[0];
            assert(from <= all[k].commit_seq.0 <= target);
        }
    }
}

} // verus!
