//! The part of the metadata that some file commits changed, for a durable
//! copy that knows everything older.
use vstd::prelude::*;

use crate::coordinator::LocalCoordinator;
use crate::error::StorageError;
use crate::export_cursor::DurableExportCursor;
use crate::export_rows::{
    add_list_names, add_map_names, any_between, any_row_between, at_least, between, has_between,
    has_row_between, keys_between, list_names, map_names, rows_between, NameKind, Names, OfCommit,
};
use crate::export::is_next;
use crate::id::{CommitSeq, KeyspaceId};
use crate::idmap::{is_walk, IdMap};
use crate::metadata::{FileWriterEpoch, LiveAppendStream, MetadataInner};
use crate::metadata_records::{
    AppendStreamRunRecord, AppendStreamState, CommitGroup, FileCommit, KeyspaceCommit,
    KeyspaceHead, MappingOwner, RootUpdate,
};
use crate::metadata_streams::token_open;
use crate::native_api::AppendStream;
use crate::reach::{collect_all, names_segment, reaches, segments_named, set_reaches};
use crate::tree::copy_vec;

verus! {

/// The rows that file commits changed. Nodes, catalog shards and commit
/// groups never change once written, so the delta names them.
pub struct NativeMetadataDelta {
    pub cursor: DurableExportCursor,
    pub keyspace_heads: IdMap<KeyspaceHead>,
    pub keyspace_catalog_shards: IdMap<()>,
    pub file_writer_epochs: Vec<FileWriterEpoch>,
    pub append_streams: Vec<AppendStreamState>,
    pub metadata_nodes: IdMap<()>,
    pub referenced_segment_ids: IdMap<()>,
    pub commit_groups: IdMap<()>,
    pub keyspace_commits: Vec<KeyspaceCommit>,
    pub file_commits: Vec<FileCommit>,
}

/// Whether a commit group does nothing but give files new roots.
pub open spec fn only_file_roots(group: CommitGroup) -> bool {
    &&& group.owner is NativeKeyspace
    &&& forall|i: int| 0 <= i < group.updates@.len() ==> (#[trigger] group.updates@[i]) is FileRoot
}

fn gives_only_file_roots(group: &CommitGroup) -> (only: bool)
    ensures
        only == only_file_roots(*group),
{
    let native = match group.owner {
        MappingOwner::NativeKeyspace(_) => true,
        MappingOwner::BlockDevice(_) => false,
    };
    if !native {
        return false;
    }
    let mut next: usize = 0;
    while next < group.updates.len()
        invariant
            next <= group.updates@.len(),
            forall|i: int| 0 <= i < next ==> (#[trigger] group.updates@[i]) is FileRoot,
        decreases group.updates@.len() - next,
    {
        let root = match &group.updates[next] {
            RootUpdate::FileRoot { .. } => true,
            _ => false,
        };
        if !root {
            assert(!(group.updates@[next as int] is FileRoot));
            return false;
        }
        next = next + 1;
    }
    true
}

/// Whether the groups of some commits all do nothing but give files new
/// roots.
pub open spec fn groups_give_file_roots(
    groups: Map<u128, CommitGroup>,
    from: u64,
    to: u64,
) -> bool {
    forall|id: u128| #[trigger]
        groups.contains_key(id) && from <= groups[id].commit_seq.0 <= to ==> only_file_roots(
            groups[id],
        )
}

fn all_give_file_roots(groups: &IdMap<CommitGroup>, from: u64, to: u64) -> (all: bool)
    ensures
        all == groups_give_file_roots(groups@, from, to),
{
    let count: usize = groups.len();
    let ghost keys = groups.keys();
    let mut next: usize = 0;
    while next < count
        invariant
            next <= count,
            count == keys.len(),
            keys == groups.keys(),
            is_walk(keys, groups@),
            forall|i: int|
                0 <= i < next && from <= groups@[#[trigger] keys[i]].commit_seq.0 <= to
                    ==> only_file_roots(groups@[keys[i]]),
        decreases count - next,
    {
        let (key, group) = groups.entry_at(next);
        let seq = group.commit_seq.0;
        if from <= seq && seq <= to && !gives_only_file_roots(group) {
            assert(groups@.contains_key(key));
            return false;
        }
        next = next + 1;
    }
    proof {
        assert forall|id: u128| #[trigger]
            groups@.contains_key(id) && from <= groups@[id].commit_seq.0 <= to implies
            only_file_roots(groups@[id]) by {
            assert(keys.contains(id));
            let i = keys.index_of(id);
            assert(keys[i] == id);
        }
    }
    true
}

/// Whether every commit of a list replaced a root.
pub open spec fn all_replace(commits: Seq<FileCommit>) -> bool {
    forall|i: int| 0 <= i < commits.len() ==> (#[trigger] commits[i]).old_root is Some
}

fn all_replace_roots(commits: &Vec<FileCommit>) -> (all: bool)
    ensures
        all == all_replace(commits@),
{
    let mut next: usize = 0;
    while next < commits.len()
        invariant
            next <= commits@.len(),
            forall|i: int| 0 <= i < next ==> (#[trigger] commits@[i]).old_root is Some,
        decreases commits@.len() - next,
    {
        if commits[next].old_root.is_none() {
            assert(commits@[next as int].old_root is None);
            return false;
        }
        next = next + 1;
    }
    true
}

/// Whether some commit of a list is about a file.
pub open spec fn touches_file(commits: Seq<FileCommit>, keyspace_id: KeyspaceId, file_id: u128) -> bool {
    list_names(commits, NameKind::File(keyspace_id), file_id)
}

fn has_touched(commits: &Vec<FileCommit>, keyspace_id: KeyspaceId, file_id: u128) -> (found: bool)
    ensures
        found == touches_file(commits@, keyspace_id, file_id),
{
    let mut next: usize = 0;
    while next < commits.len()
        invariant
            next <= commits@.len(),
            forall|i: int|
                0 <= i < next ==> !((#[trigger] commits@[i]).keyspace_id == keyspace_id
                    && commits@[i].file_id.0 == file_id),
        decreases commits@.len() - next,
    {
        if commits[next].keyspace_id.0 == keyspace_id.0 && commits[next].file_id.0 == file_id {
            proof {
                assert(commits@[next as int].names(NameKind::File(keyspace_id), file_id));
            }
            return true;
        }
        next = next + 1;
    }
    false
}

/// The epochs of the files that some commits are about.
pub open spec fn touched_epochs(epochs: Seq<FileWriterEpoch>, commits: Seq<FileCommit>) -> Seq<
    FileWriterEpoch,
>
    decreases epochs.len(),
{
    if epochs.len() == 0 {
        epochs
    } else {
        let before = touched_epochs(epochs.drop_last(), commits);
        let last = epochs.last();
        if touches_file(commits, last.keyspace_id, last.file_id.0) {
            before.push(last)
        } else {
            before
        }
    }
}

fn collect_touched_epochs(epochs: &Vec<FileWriterEpoch>, commits: &Vec<FileCommit>) -> (kept: Vec<
    FileWriterEpoch,
>)
    ensures
        kept@ == touched_epochs(epochs@, commits@),
{
    let mut kept: Vec<FileWriterEpoch> = Vec::new();
    let mut next: usize = 0;
    assert(epochs@.take(0) =~= Seq::empty());
    while next < epochs.len()
        invariant
            next <= epochs@.len(),
            kept@ == touched_epochs(epochs@.take(next as int), commits@),
        decreases epochs@.len() - next,
    {
        let epoch = epochs[next];
        assert(epochs@.take(next + 1).drop_last() =~= epochs@.take(next as int));
        if has_touched(commits, epoch.keyspace_id, epoch.file_id.0) {
            kept.push(epoch);
        }
        next = next + 1;
    }
    assert(epochs@.take(next as int) =~= epochs@);
    kept
}

/// The records of a stream up to a place.
pub open spec fn records_through(records: Seq<AppendStreamRunRecord>, through: u64) -> Seq<
    AppendStreamRunRecord,
>
    decreases records.len(),
{
    if records.len() == 0 {
        records
    } else {
        let before = records_through(records.drop_last(), through);
        if records.last().offset + records.last().len <= through {
            before.push(records.last())
        } else {
            before
        }
    }
}

/// Whether a record of a stream ends at a place.
pub open spec fn record_ends(records: Seq<AppendStreamRunRecord>, through: u64) -> bool {
    exists|i: int|
        0 <= i < records.len() && (#[trigger] records[i]).offset + records[i].len == through
}

/// Whether a stream can be written down as it is up to a place.
pub open spec fn exportable_at(stream: LiveAppendStream, through: u64) -> bool {
    through == stream.state.published_through || record_ends(stream.state.records@, through)
}

/// Whether a state is that of a stream up to a place.
pub open spec fn exported_stream(
    stream: LiveAppendStream,
    through: u64,
    state: AppendStreamState,
) -> bool {
    &&& state.keyspace_id == stream.state.keyspace_id
    &&& state.file_id == stream.state.file_id
    &&& state.stream_id == stream.state.stream_id
    &&& state.writer_epoch == stream.state.writer_epoch
    &&& state.base_version == stream.state.base_version
    &&& state.visible_base_size == stream.state.visible_base_size
    &&& state.reserved_tail == through
    &&& state.durable_through == through
    &&& state.published_through == stream.state.published_through
    &&& state.status == stream.state.status
    &&& state.records@ == records_through(stream.state.records@, through)
}

/// A stream as it is up to a place.
pub fn durable_export_at(stream: &LiveAppendStream, through: u64) -> (result: Result<
    AppendStreamState,
    StorageError,
>)
    requires
        forall|i: int|
            0 <= i < stream.state.records@.len() ==> (#[trigger] stream.state.records@[i]).offset
                + stream.state.records@[i].len <= u64::MAX,
    ensures
        result is Ok <==> exportable_at(*stream, through),
        result matches Ok(state) ==> exported_stream(*stream, through, state),
        result matches Err(error) ==> error is Conflict,
{
    let ghost records = stream.state.records@;
    let mut kept: Vec<AppendStreamRunRecord> = Vec::new();
    let mut ends = through == stream.state.published_through;
    let mut next: usize = 0;
    assert(records.take(0) =~= Seq::empty());
    while next < stream.state.records.len()
        invariant
            next <= records.len(),
            records == stream.state.records@,
            forall|i: int|
                0 <= i < records.len() ==> (#[trigger] records[i]).offset + records[i].len
                    <= u64::MAX,
            kept@ == records_through(records.take(next as int), through),
            ends == (through == stream.state.published_through || exists|i: int|
                0 <= i < next && (#[trigger] records[i]).offset + records[i].len == through),
        decreases records.len() - next,
    {
        let record = stream.state.records[next];
        assert(records[next as int] == record);
        assert(records.take(next + 1).drop_last() =~= records.take(next as int));
        let end: u64 = record.offset + record.len;
        if end <= through {
            kept.push(record);
        }
        if end == through {
            ends = true;
        }
        next = next + 1;
    }
    assert(records.take(next as int) =~= records);
    if !ends {
        return Err(StorageError::conflict("append stream has no record ending there"));
    }
    Ok(
        AppendStreamState {
            keyspace_id: stream.state.keyspace_id,
            file_id: stream.state.file_id,
            stream_id: stream.state.stream_id,
            writer_epoch: stream.state.writer_epoch,
            base_version: stream.state.base_version,
            visible_base_size: stream.state.visible_base_size,
            reserved_tail: through,
            durable_through: through,
            published_through: stream.state.published_through,
            status: stream.state.status,
            records: kept,
        },
    )
}

/// Whether one of some commits gave a file the size up to which a stream is
/// published.
pub open spec fn stream_published_by(commits: Seq<FileCommit>, stream: LiveAppendStream) -> bool {
    exists|i: int|
        0 <= i < commits.len() && (#[trigger] commits[i]).keyspace_id == stream.state.keyspace_id
            && commits[i].file_id == stream.state.file_id && commits[i].new_size
            == stream.state.published_through
}

fn is_published_by(commits: &Vec<FileCommit>, stream: &LiveAppendStream) -> (published: bool)
    ensures
        published == stream_published_by(commits@, *stream),
{
    let mut next: usize = 0;
    while next < commits.len()
        invariant
            next <= commits@.len(),
            forall|i: int|
                0 <= i < next ==> !((#[trigger] commits@[i]).keyspace_id
                    == stream.state.keyspace_id && commits@[i].file_id == stream.state.file_id
                    && commits@[i].new_size == stream.state.published_through),
        decreases commits@.len() - next,
    {
        let commit = &commits[next];
        if commit.keyspace_id.0 == stream.state.keyspace_id.0 && commit.file_id.0
            == stream.state.file_id.0 && commit.new_size == stream.state.published_through {
            assert(commits@[next as int].new_size == stream.state.published_through);
            return true;
        }
        next = next + 1;
    }
    false
}

/// Whether a list holds the streams that some commits published, each as it
/// is up to its durable end, by their numbers.
pub open spec fn streams_exported(
    streams: Map<u128, LiveAppendStream>,
    commits: Seq<FileCommit>,
    states: Seq<AppendStreamState>,
) -> bool {
    &&& forall|i: int, j: int|
        0 <= i < j < states.len() ==> (#[trigger] states[i]).stream_id.0 < (
        #[trigger] states[j]).stream_id.0
    &&& forall|i: int|
        0 <= i < states.len() ==> {
            let id = (#[trigger] states[i]).stream_id.0;
            &&& streams.contains_key(id)
            &&& stream_published_by(commits, streams[id])
            &&& exported_stream(streams[id], streams[id].state.durable_through, states[i])
        }
    &&& forall|id: u128| #[trigger]
        streams.contains_key(id) && stream_published_by(commits, streams[id]) ==> exists|i: int|
            0 <= i < states.len() && (#[trigger] states[i]).stream_id.0 == id
}

/// Whether each stream that some commits published can be written down.
pub open spec fn streams_exportable(
    streams: Map<u128, LiveAppendStream>,
    commits: Seq<FileCommit>,
) -> bool {
    forall|id: u128| #[trigger]
        streams.contains_key(id) && stream_published_by(commits, streams[id]) ==> exportable_at(
            streams[id],
            streams[id].state.durable_through,
        )
}

fn export_streams(streams: &IdMap<LiveAppendStream>, commits: &Vec<FileCommit>) -> (result: Result<
    Vec<AppendStreamState>,
    StorageError,
>)
    requires
        forall|id: u128| #[trigger]
            streams@.contains_key(id) ==> streams@[id].state.stream_id.0 == id && forall|i: int|
                0 <= i < streams@[id].state.records@.len() ==> (
                #[trigger] streams@[id].state.records@[i]).offset
                    + streams@[id].state.records@[i].len <= u64::MAX,
    ensures
        result is Ok <==> streams_exportable(streams@, commits@),
        result matches Ok(states) ==> streams_exported(streams@, commits@, states@),
        result matches Err(error) ==> error is Conflict,
{
    let mut states: Vec<AppendStreamState> = Vec::new();
    let count: usize = streams.len();
    let ghost keys = streams.keys();
    let mut next: usize = 0;
    while next < count
        invariant
            next <= count,
            count == keys.len(),
            keys == streams.keys(),
            is_walk(keys, streams@),
            forall|id: u128| #[trigger]
                streams@.contains_key(id) ==> streams@[id].state.stream_id.0 == id && forall|
                    i: int,
                |
                    0 <= i < streams@[id].state.records@.len() ==> (
                    #[trigger] streams@[id].state.records@[i]).offset
                        + streams@[id].state.records@[i].len <= u64::MAX,
            forall|i: int, j: int|
                0 <= i < j < states@.len() ==> (#[trigger] states@[i]).stream_id.0 < (
                #[trigger] states@[j]).stream_id.0,
            forall|i: int|
                0 <= i < states@.len() ==> {
                    let id = (#[trigger] states@[i]).stream_id.0;
                    &&& streams@.contains_key(id)
                    &&& stream_published_by(commits@, streams@[id])
                    &&& exported_stream(
                        streams@[id],
                        streams@[id].state.durable_through,
                        states@[i],
                    )
                },
            forall|i: int, k: int|
                0 <= i < states@.len() && next <= k < count ==> (
                #[trigger] states@[i]).stream_id.0 < #[trigger] keys[k],
            forall|k: int|
                0 <= k < next && stream_published_by(commits@, streams@[#[trigger] keys[k]])
                    ==> exportable_at(streams@[keys[k]], streams@[keys[k]].state.durable_through)
                    && exists|i: int|
                    0 <= i < states@.len() && (#[trigger] states@[i]).stream_id.0 == keys[k],
        decreases count - next,
    {
        let ghost then = states@;
        let (id, stream) = streams.entry_at(next);
        assert(keys[next as int] == id);
        if is_published_by(commits, stream) {
            match durable_export_at(stream, stream.state.durable_through) {
                Ok(state) => {
                    assert forall|i: int| 0 <= i < then.len() implies (
                    #[trigger] then[i]).stream_id.0 < id by {
                        assert(then[i].stream_id.0 < keys[next as int]);
                    }
                    states.push(state);
                    proof {
                        assert(states@[then.len() as int].stream_id.0 == id);
                        assert forall|k: int|
                            0 <= k < next + 1 && stream_published_by(
                                commits@,
                                streams@[#[trigger] keys[k]],
                            ) implies exists|i: int|
                            0 <= i < states@.len() && (#[trigger] states@[i]).stream_id.0
                                == keys[k] by {
                            if k < next {
                                let i = choose|i: int|
                                    0 <= i < then.len() && (#[trigger] then[i]).stream_id.0
                                        == keys[k];
                                assert(states@[i].stream_id.0 == keys[k]);
                            }
                        }
                    }
                },
                Err(error) => {
                    assert(streams@.contains_key(id));
                    return Err(error);
                },
            }
        }
        next = next + 1;
    }
    proof {
        assert forall|id: u128| #[trigger]
            streams@.contains_key(id) && stream_published_by(commits@, streams@[id]) implies
            exportable_at(streams@[id], streams@[id].state.durable_through) && exists|i: int|
            0 <= i < states@.len() && (#[trigger] states@[i]).stream_id.0 == id by {
            assert(keys.contains(id));
            let k = keys.index_of(id);
            assert(keys[k] == id);
        }
    }
    Ok(states)
}

impl MetadataInner {
    /// The head of a keyspace at a point.
    fn keyspace_head_then(&self, id: u128, at: CommitSeq, block_size: Ghost<u64>) -> (result: Result<
        KeyspaceHead,
        StorageError,
    >)
        requires
            self.files_wf(block_size@),
        ensures
            result is Ok <==> self.keyspace_live_at(id, at.0) && !self.keyspace_history_broken(
                id,
                at.0,
            ),
            result matches Ok(head) ==> self.keyspace_head_at(id, at.0, head),
            result matches Err(error) ==> error is NotFound || error is Corrupt,
    {
        let head = match self.keyspace_heads.get(id) {
            Some(head) => head,
            None => return Err(StorageError::not_found("keyspace", id)),
        };
        if head.latest_commit.0 <= at.0 {
            return Ok(
                KeyspaceHead {
                    keyspace_id: head.keyspace_id,
                    generation: head.generation,
                    shard_roots: copy_vec(&head.shard_roots),
                    file_count: head.file_count,
                    latest_commit: head.latest_commit,
                },
            );
        }
        match self.replay_keyspace_root(KeyspaceId(id), at, block_size) {
            Ok((shard_roots, file_count)) => {
                let latest_commit = self.latest_commit_at_or_before(
                    MappingOwner::NativeKeyspace(KeyspaceId(id)),
                    at,
                );
                Ok(
                    KeyspaceHead {
                        keyspace_id: head.keyspace_id,
                        generation: head.generation,
                        shard_roots,
                        file_count,
                        latest_commit,
                    },
                )
            },
            Err(error) => Err(error),
        }
    }

    /// Whether the heads of some keyspaces are those of a point.
    pub open spec fn heads_then(
        &self,
        wanted: Map<u128, ()>,
        at: u64,
        heads: Map<u128, KeyspaceHead>,
    ) -> bool {
        &&& forall|id: u128| #[trigger] heads.contains_key(id) <==> wanted.contains_key(id)
        &&& forall|id: u128| #[trigger]
            heads.contains_key(id) ==> self.keyspace_head_at(id, at, heads[id])
    }

    /// Whether some keyspaces were there at a point, with a sound history.
    pub open spec fn keyspaces_found(&self, wanted: Map<u128, ()>, at: u64) -> bool {
        forall|id: u128| #[trigger]
            wanted.contains_key(id) ==> self.keyspace_live_at(id, at)
                && !self.keyspace_history_broken(id, at)
    }

    fn collect_heads_then(
        &self,
        wanted: &IdMap<()>,
        at: CommitSeq,
        block_size: Ghost<u64>,
    ) -> (result: Result<IdMap<KeyspaceHead>, StorageError>)
        requires
            self.files_wf(block_size@),
        ensures
            result is Ok <==> self.keyspaces_found(wanted@, at.0),
            result matches Ok(heads) ==> self.heads_then(wanted@, at.0, heads@),
            result matches Err(error) ==> error is NotFound || error is Corrupt,
    {
        let mut heads: IdMap<KeyspaceHead> = IdMap::new();
        let count: usize = wanted.len();
        let ghost keys = wanted.keys();
        let mut next: usize = 0;
        while next < count
            invariant
                next <= count,
                count == keys.len(),
                keys == wanted.keys(),
                is_walk(keys, wanted@),
                self.files_wf(block_size@),
                forall|id: u128| #[trigger]
                    heads@.contains_key(id) <==> keys.take(next as int).contains(id),
                forall|id: u128| #[trigger]
                    heads@.contains_key(id) ==> self.keyspace_head_at(id, at.0, heads@[id]),
                forall|i: int|
                    0 <= i < next ==> self.keyspace_live_at(#[trigger] keys[i], at.0)
                        && !self.keyspace_history_broken(keys[i], at.0),
            decreases count - next,
        {
            let (id, _) = wanted.entry_at(next);
            proof {
                crate::export_rows::lemma_taken(keys, next as int);
            }
            match self.keyspace_head_then(id, at, block_size) {
                Ok(head) => {
                    heads.insert(id, head);
                },
                Err(error) => {
                    assert(wanted@.contains_key(id));
                    return Err(error);
                },
            }
            next = next + 1;
        }
        proof {
            assert(keys.take(next as int) =~= keys);
            assert forall|id: u128| #[trigger] wanted@.contains_key(id) implies
                self.keyspace_live_at(id, at.0) && !self.keyspace_history_broken(id, at.0) by {
                assert(keys.contains(id));
                let i = keys.index_of(id);
                assert(keys[i] == id);
            }
        }
        Ok(heads)
    }
}

/// The next number after some keys, and not below a bound.
fn next_after_keys(keys: &IdMap<()>, floor: u128) -> (result: Result<u128, StorageError>)
    ensures
        result is Ok <==> !keys@.contains_key(u128::MAX),
        result matches Ok(next) ==> is_next(keys@.dom(), floor, next),
        result matches Err(error) ==> error is Conflict,
{
    let max = keys.max_key();
    proof {
        if max is None {
            assert(keys@.dom() =~= Set::<u128>::empty());
        }
    }
    crate::export::next_u128_after_max(max, floor, Ghost(keys@.dom()))
}

impl LocalCoordinator {
    /// The file commits that a delta is about.
    pub open spec fn delta_file_commits(&self, previous: DurableExportCursor, target: u64) -> Seq<
        FileCommit,
    > {
        between(self.metadata.file_commits@, previous.next_commit_seq, target)
    }

    /// The keyspaces that a delta is about.
    pub open spec fn delta_keyspaces(&self, previous: DurableExportCursor, target: u64) -> Map<
        u128,
        (),
    > {
        Map::new(
            |id: u128|
                list_names(
                    between(self.metadata.keyspace_commits@, previous.next_commit_seq, target),
                    NameKind::Keyspace,
                    id,
                ) || list_names(
                    self.delta_file_commits(previous, target),
                    NameKind::Keyspace,
                    id,
                ),
            |id: u128| (),
        )
    }

    /// Whether more than file contents changed, or nothing did, so that there
    /// is no delta.
    pub open spec fn delta_refused(
        &self,
        previous: DurableExportCursor,
        target: u64,
        append_stream: Option<&AppendStream>,
    ) -> bool {
        let from = previous.next_commit_seq;
        let commits = self.delta_file_commits(previous, target);
        ||| append_stream is None && self.metadata.append_streams@ != Map::<
            u128,
            LiveAppendStream,
        >::empty()
        ||| previous.next_gc_epoch != self.metadata.next_gc_epoch
        ||| any_between(self.metadata.shard_commits@, from, target)
        ||| any_row_between(self.metadata.fork_records@, from, target)
        ||| any_row_between(self.metadata.delete_records@, from, target)
        ||| any_row_between(self.metadata.checkpoints@, from, target)
        ||| !any_row_between(self.metadata.commit_groups@, from, target)
        ||| !groups_give_file_roots(self.metadata.commit_groups@, from, target)
        ||| commits.len() == 0
        ||| !all_replace(commits)
        ||| append_stream matches Some(stream) && !touches_file(
            commits,
            stream.keyspace_id,
            stream.file_id.0,
        )
    }

    /// Whether all that a delta is about can be found.
    pub open spec fn delta_complete(
        &self,
        previous: DurableExportCursor,
        target: u64,
        append_stream: Option<&AppendStream>,
    ) -> bool {
        let commits = self.delta_file_commits(previous, target);
        &&& target < u64::MAX
        &&& self.metadata.keyspaces_found(self.delta_keyspaces(previous, target), target)
        &&& forall|i: int|
            0 <= i < commits.len() ==> (#[trigger] commits[i]).new_root.0
                < previous.next_metadata_node_id || self.nodes().contains_key(
                commits[i].new_root.0,
            )
        &&& append_stream is Some ==> streams_exportable(self.metadata.append_streams@, commits)
        &&& !(self.metadata.commit_groups@.contains_key(u128::MAX) && previous.next_commit_seq
            <= self.metadata.commit_groups@[u128::MAX].commit_seq.0 <= target)
    }

    /// Whether a delta holds what the commits changed.
    pub open spec fn delta_made(
        &self,
        previous: DurableExportCursor,
        target: u64,
        append_stream: Option<&AppendStream>,
        delta: NativeMetadataDelta,
    ) -> bool {
        let from = previous.next_commit_seq;
        let commits = self.delta_file_commits(previous, target);
        &&& delta.file_commits@ == commits
        &&& delta.keyspace_commits@ == between(self.metadata.keyspace_commits@, from, target)
        &&& forall|id: u128| #[trigger]
            delta.commit_groups@.contains_key(id) <==> self.metadata.commit_groups@.contains_key(id)
                && from <= self.metadata.commit_groups@[id].commit_seq.0 <= target
        &&& self.metadata.heads_then(
            self.delta_keyspaces(previous, target),
            target,
            delta.keyspace_heads@,
        )
        &&& forall|id: u128| #[trigger]
            delta.keyspace_catalog_shards@.contains_key(id) <==> id
                >= previous.next_keyspace_catalog_shard_id && map_names(
                delta.keyspace_heads@,
                NameKind::Shard,
                id,
            )
        &&& forall|id: u128| #[trigger]
            delta.metadata_nodes@.contains_key(id) <==> id >= previous.next_metadata_node_id
                && new_root_reaches(self.nodes(), commits, id)
        &&& forall|id: u128| #[trigger]
            delta.referenced_segment_ids@.contains_key(id) <==> names_segment(
                self.nodes(),
                delta.metadata_nodes@,
                id,
            )
        &&& delta.file_writer_epochs@ == touched_epochs(self.metadata.file_writer_epochs@, commits)
        &&& if append_stream is Some {
            streams_exported(self.metadata.append_streams@, commits, delta.append_streams@)
        } else {
            delta.append_streams@.len() == 0
        }
        &&& is_next(
            delta.keyspace_catalog_shards@.dom(),
            previous.next_keyspace_catalog_shard_id,
            delta.cursor.next_keyspace_catalog_shard_id,
        )
        &&& is_next(
            delta.metadata_nodes@.dom(),
            previous.next_metadata_node_id,
            delta.cursor.next_metadata_node_id,
        )
        &&& is_next(
            delta.commit_groups@.dom(),
            previous.next_commit_group_id,
            delta.cursor.next_commit_group_id,
        )
        &&& delta.cursor.next_commit_seq == if previous.next_commit_seq > target {
            previous.next_commit_seq
        } else {
            (target + 1) as u64
        }
        &&& delta.cursor == (DurableExportCursor {
            config: self.config,
            next_keyspace_catalog_shard_id: delta.cursor.next_keyspace_catalog_shard_id,
            next_metadata_node_id: delta.cursor.next_metadata_node_id,
            next_commit_group_id: delta.cursor.next_commit_group_id,
            next_commit_seq: delta.cursor.next_commit_seq,
            next_write_intent: self.next_write_intent,
            next_extent_id: self.next_extent_id,
            next_segment_id: self.storage_nodes.next_segment_id,
            next_placement_index: self.storage_nodes.next_placement_index,
            ..previous
        })
    }

    fn is_delta_refused(
        &self,
        target: CommitSeq,
        previous: &DurableExportCursor,
        append_stream: Option<&AppendStream>,
        commits: &Vec<FileCommit>,
    ) -> (refused: bool)
        requires
            commits@ == self.delta_file_commits(*previous, target.0),
        ensures
            refused == self.delta_refused(*previous, target.0, append_stream),
    {
        let from = previous.next_commit_seq;
        let to = target.0;
        if append_stream.is_none() && !self.metadata.append_streams.is_empty() {
            return true;
        }
        if previous.next_gc_epoch != self.metadata.next_gc_epoch {
            return true;
        }
        if has_between(&self.metadata.shard_commits, from, to) || has_row_between(
            &self.metadata.fork_records,
            from,
            to,
        ) || has_row_between(&self.metadata.delete_records, from, to) || has_row_between(
            &self.metadata.checkpoints,
            from,
            to,
        ) {
            return true;
        }
        if !has_row_between(&self.metadata.commit_groups, from, to) || !all_give_file_roots(
            &self.metadata.commit_groups,
            from,
            to,
        ) {
            return true;
        }
        if commits.len() == 0 || !all_replace_roots(commits) {
            return true;
        }
        match append_stream {
            Some(stream) => !has_touched(commits, stream.keyspace_id, stream.file_id.0),
            None => false,
        }
    }

    /// The part of the metadata that the file commits up to a target changed,
    /// if they changed nothing else.
    #[verifier::rlimit(60)]
    pub fn native_metadata_delta_through_inner(
        &self,
        target: CommitSeq,
        previous: &DurableExportCursor,
        append_stream: Option<&AppendStream>,
    ) -> (result: Result<Option<NativeMetadataDelta>, StorageError>)
        requires
            self.wf(),
        ensures
            (append_stream matches Some(stream) && !token_open(
                self.metadata.append_streams@,
                *stream,
            )) ==> result == Err::<Option<NativeMetadataDelta>, StorageError>(
                StorageError::Conflict { message: "stale append stream" },
            ),
            (append_stream matches Some(stream) ==> token_open(
                self.metadata.append_streams@,
                *stream,
            )) ==> {
                &&& (result matches Ok(None)) <==> self.delta_refused(
                    *previous,
                    target.0,
                    append_stream,
                )
                &&& result matches Ok(Some(delta)) ==> self.delta_made(
                    *previous,
                    target.0,
                    append_stream,
                    delta,
                )
                &&& !self.delta_refused(*previous, target.0, append_stream) ==> (result is Ok
                    <==> self.delta_complete(*previous, target.0, append_stream))
            },
    {
        match append_stream {
            Some(stream) => {
                if !self.metadata.is_token_open(stream) {
                    return Err(StorageError::conflict("stale append stream"));
                }
            },
            None => {},
        }
        let from = previous.next_commit_seq;
        let ghost bs = self.block_size();
        let file_commits = rows_between(&self.metadata.file_commits, from, target.0);
        let ghost commits = file_commits@;
        if self.is_delta_refused(target, previous, append_stream, &file_commits) {
            return Ok(None);
        }
        let keyspace_commits = rows_between(&self.metadata.keyspace_commits, from, target.0);
        let mut wanted: IdMap<()> = IdMap::new();
        add_list_names(&keyspace_commits, NameKind::Keyspace, &mut wanted);
        add_list_names(&file_commits, NameKind::Keyspace, &mut wanted);
        proof {
            let keyspaces = self.delta_keyspaces(*previous, target.0);
            assert forall|id: u128| wanted@.contains_key(id) <==> keyspaces.contains_key(id) by {}
            assert(wanted@ =~= keyspaces);
        }
        let keyspace_heads = match self.metadata.collect_heads_then(&wanted, target, Ghost(bs)) {
            Ok(heads) => heads,
            Err(error) => return Err(error),
        };
        let mut shards_named: IdMap<()> = IdMap::new();
        add_map_names(&keyspace_heads, NameKind::Shard, &mut shards_named);
        let shards = at_least(&shards_named, previous.next_keyspace_catalog_shard_id);
        proof {
            assert forall|id: u128| #[trigger] shards@.contains_key(id) implies
                self.metadata.keyspace_catalog_shards@.contains_key(id) by {
                assert(shards_named@.contains_key(id));
                let key = choose|key: u128| #[trigger]
                    keyspace_heads@.contains_key(key) && keyspace_heads@[key].names(
                        NameKind::Shard,
                        id,
                    );
                assert(self.metadata.keyspace_live_at(key, target.0));
                assert(!self.metadata.keyspace_history_broken(key, target.0));
                let roots = keyspace_heads@[key].shard_roots@;
                let i = choose|i: int| 0 <= i < roots.len() && (#[trigger] roots[i]).0 == id;
                assert(self.metadata.keyspace_catalog_shards@.contains_key(roots[i].0));
            }
        }
        let mut roots: IdMap<()> = IdMap::new();
        add_list_names(&file_commits, NameKind::NewRoot, &mut roots);
        let nodes = match collect_all(
            &self.metadata.trees.nodes,
            &roots,
            previous.next_metadata_node_id,
            Ghost(bs),
        ) {
            Ok(nodes) => nodes,
            Err(error) => {
                proof {
                    let id = choose|id: u128|
                        #![trigger roots@.contains_key(id)]
                        roots@.contains_key(id) && id >= previous.next_metadata_node_id
                            && !self.nodes().contains_key(id);
                    assert(list_names(commits, NameKind::NewRoot, id));
                    let i = choose|i: int|
                        0 <= i < commits.len() && (#[trigger] commits[i]).names(
                            NameKind::NewRoot,
                            id,
                        );
                    assert(commits[i].new_root.0 == id);
                    assert(!self.delta_complete(*previous, target.0, append_stream));
                }
                return Err(error);
            },
        };
        proof {
            assert forall|i: int| 0 <= i < commits.len() implies (
            #[trigger] commits[i]).new_root.0 < previous.next_metadata_node_id
                || self.nodes().contains_key(commits[i].new_root.0) by {
                assert(commits[i].names(NameKind::NewRoot, commits[i].new_root.0));
                assert(roots@.contains_key(commits[i].new_root.0));
            }
            assert forall|id: u128| set_reaches(self.nodes(), roots@, id) <==> new_root_reaches(
                self.nodes(),
                commits,
                id,
            ) by {
                lemma_new_roots(self.nodes(), commits, roots@, id);
            }
        }
        let segments = segments_named(&self.metadata.trees.nodes, &nodes);
        let append_streams = match append_stream {
            Some(_) => {
                proof {
                    assert forall|id: u128| #[trigger]
                        self.metadata.append_streams@.contains_key(id) implies
                        self.metadata.append_streams@[id].state.stream_id.0 == id && forall|i: int|
                        0 <= i < self.metadata.append_streams@[id].state.records@.len() ==> (
                        #[trigger] self.metadata.append_streams@[id].state.records@[i]).offset
                            + self.metadata.append_streams@[id].state.records@[i].len
                            <= u64::MAX by {
                        assert(crate::metadata::stream_wf(
                            self.logs(),
                            self.metadata.append_streams@[id],
                            id,
                        ));
                    }
                }
                match export_streams(&self.metadata.append_streams, &file_commits) {
                    Ok(states) => states,
                    Err(error) => return Err(error),
                }
            },
            None => Vec::new(),
        };
        let epochs = collect_touched_epochs(&self.metadata.file_writer_epochs, &file_commits);
        let groups = keys_between(&self.metadata.commit_groups, from, target.0);
        let mut cursor = *previous;
        cursor.config = self.config;
        cursor.next_keyspace_catalog_shard_id =
        match next_after_keys(&shards, previous.next_keyspace_catalog_shard_id) {
            Ok(next) => next,
            Err(error) => {
                assert(self.metadata.keyspace_catalog_shards@.contains_key(u128::MAX));
                return Err(error);
            },
        };
        cursor.next_metadata_node_id =
        match next_after_keys(&nodes, previous.next_metadata_node_id) {
            Ok(next) => next,
            Err(error) => {
                proof {
                    assert(nodes@.contains_key(u128::MAX));
                    assert(self.nodes().contains_key(u128::MAX));
                }
                return Err(error);
            },
        };
        cursor.next_commit_group_id =
        match next_after_keys(&groups, previous.next_commit_group_id) {
            Ok(next) => next,
            Err(error) => {
                assert(groups@.contains_key(u128::MAX));
                return Err(error);
            },
        };
        if target.0 == u64::MAX {
            return Err(StorageError::conflict("durable cursor commit overflow"));
        }
        if cursor.next_commit_seq <= target.0 {
            cursor.next_commit_seq = target.0 + 1;
        }
        cursor.next_write_intent = self.next_write_intent;
        cursor.next_extent_id = self.next_extent_id;
        cursor.next_segment_id = self.storage_nodes.next_segment_id;
        cursor.next_placement_index = self.storage_nodes.next_placement_index;
        Ok(
            Some(
                NativeMetadataDelta {
                    cursor,
                    keyspace_heads,
                    keyspace_catalog_shards: shards,
                    file_writer_epochs: epochs,
                    append_streams,
                    metadata_nodes: nodes,
                    referenced_segment_ids: segments,
                    commit_groups: groups,
                    keyspace_commits,
                    file_commits,
                },
            ),
        )
    }

    /// The delta of file commits while no append stream is open.
    pub fn native_metadata_delta_through(
        &self,
        target: CommitSeq,
        previous: &DurableExportCursor,
    ) -> (result: Result<Option<NativeMetadataDelta>, StorageError>)
        requires
            self.wf(),
        ensures
            (result matches Ok(None)) <==> self.delta_refused(*previous, target.0, None),
            result matches Ok(Some(delta)) ==> self.delta_made(*previous, target.0, None, delta),
            !self.delta_refused(*previous, target.0, None) ==> (result is Ok
                <==> self.delta_complete(*previous, target.0, None)),
    {
        self.native_metadata_delta_through_inner(target, previous, None)
    }

    /// The delta of the publishes of an open append stream.
    pub fn native_append_publish_delta_through(
        &self,
        stream: &AppendStream,
        target: CommitSeq,
        previous: &DurableExportCursor,
    ) -> (result: Result<Option<NativeMetadataDelta>, StorageError>)
        requires
            self.wf(),
        ensures
            !token_open(self.metadata.append_streams@, *stream) ==> result == Err::<
                Option<NativeMetadataDelta>,
                StorageError,
            >(StorageError::Conflict { message: "stale append stream" }),
            token_open(self.metadata.append_streams@, *stream) ==> {
                &&& (result matches Ok(None)) <==> self.delta_refused(
                    *previous,
                    target.0,
                    Some(stream),
                )
                &&& result matches Ok(Some(delta)) ==> self.delta_made(
                    *previous,
                    target.0,
                    Some(stream),
                    delta,
                )
                &&& !self.delta_refused(*previous, target.0, Some(stream)) ==> (result is Ok
                    <==> self.delta_complete(*previous, target.0, Some(stream)))
            },
    {
        self.native_metadata_delta_through_inner(target, previous, Some(stream))
    }
}

/// Whether a root that some commits wrote leads to a node.
pub open spec fn new_root_reaches(
    nodes: Map<u128, crate::metadata_records::MetadataNode>,
    commits: Seq<FileCommit>,
    id: u128,
) -> bool {
    exists|i: int|
        0 <= i < commits.len() && reaches(nodes, (#[trigger] commits[i]).new_root.0, id)
}

proof fn lemma_new_roots(
    nodes: Map<u128, crate::metadata_records::MetadataNode>,
    commits: Seq<FileCommit>,
    roots: Map<u128, ()>,
    id: u128,
)
    requires
        forall|root: u128| #[trigger]
            roots.contains_key(root) <==> list_names(commits, NameKind::NewRoot, root),
    ensures
        set_reaches(nodes, roots, id) <==> new_root_reaches(nodes, commits, id),
{
    if set_reaches(nodes, roots, id) {
        let root = choose|root: u128| #[trigger]
            roots.contains_key(root) && reaches(nodes, root, id);
        let i = choose|i: int|
            0 <= i < commits.len() && (#[trigger] commits[i]).names(NameKind::NewRoot, root);
        assert(commits[i].new_root.0 == root);
    }
    if new_root_reaches(nodes, commits, id) {
        let i = choose|i: int|
            0 <= i < commits.len() && reaches(nodes, (#[trigger] commits[i]).new_root.0, id);
        assert(commits[i].names(NameKind::NewRoot, commits[i].new_root.0));
        assert(roots.contains_key(commits[i].new_root.0));
    }
}

} // verus!
