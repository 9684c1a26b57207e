//! Publishing segments as a file's new contents.
use vstd::prelude::*;

use crate::block_api::{BlockRange, ByteRange, WriteDurability};
use crate::coordinator::{LocalCoordinator, lemma_block_of_byte, segment_byte};
use crate::delta_records::{NativeFileDeltaCommit, NativeFileDeltaEntry, NativeFileDeltaReplacement};
use crate::device_trees::bases_wf;
use crate::error::StorageError;
use crate::file_read::tree_byte;
use crate::id::{BlockIndex, FileId, FileVersion, KeyspaceId, MetadataNodeId};
use crate::idmap::is_walk;
use crate::leaf::{LogByte, SegmentBlock};
use crate::metadata::{
    LiveAppendStream, MetadataInner, lemma_catalog_kept, lemma_devices_kept, stream_wf, streams_wf,
};
use crate::metadata_files::FileFence;
use crate::metadata_records::{AppendStreamState, AppendStreamStatus, FileHead};
use crate::native_api::FileWriteCommit;
use crate::observability::{StorageEventKind, counted};
use crate::segment_records::SegmentWriteReceipt;
use crate::tree::{
    SegmentReplacement, TreeRangeEdit, block_at, edited, edits_backed, is_edited, run_at,
};
use crate::tree_edit::{edit_outcome, edits_allowed, replace_tree_ranges};

verus! {

/// A stream after the file that it writes to was changed by someone else.
pub open spec fn fenced(
    stream: LiveAppendStream,
    keyspace_id: KeyspaceId,
    file_id: FileId,
) -> LiveAppendStream {
    if stream.state.status == AppendStreamStatus::Active && stream.state.keyspace_id == keyspace_id
        && stream.state.file_id == file_id {
        LiveAppendStream {
            state: AppendStreamState { status: AppendStreamStatus::Fenced, ..stream.state },
            ..stream
        }
    } else {
        stream
    }
}

impl MetadataInner {
    /// Fences the streams that write to a file.
    pub fn invalidate_append_streams_for_file(&mut self, keyspace_id: KeyspaceId, file_id: FileId)
        ensures
            final(self).append_streams@ == old(self).append_streams@.map_values(
                |stream: LiveAppendStream| fenced(stream, keyspace_id, file_id),
            ),
            *final(self) == (MetadataInner {
                append_streams: final(self).append_streams,
                ..*old(self)
            }),
    {
        let ghost before = *self;
        let ghost streams = self.append_streams@;
        let mut ids: Vec<u128> = Vec::new();
        let count = self.append_streams.len();
        let ghost keys = self.append_streams.keys();
        let mut i: usize = 0;
        while i < count
            invariant
                i <= count,
                count == keys.len(),
                keys == self.append_streams.keys(),
                *self == before,
                ids@ == keys.take(i as int),
            decreases count - i,
        {
            let (id, _stream) = self.append_streams.entry_at(i);
            ids.push(id);
            assert(ids@ =~= keys.take(i + 1));
            i = i + 1;
        }
        assert(ids@ =~= keys);
        let mut k: usize = 0;
        while k < ids.len()
            invariant
                k <= ids@.len(),
                ids@ == keys,
                is_walk(keys, streams),
                *self == (MetadataInner { append_streams: self.append_streams, ..before }),
                self.append_streams@.dom() == streams.dom(),
                forall|j: int|
                    0 <= j < k ==> self.append_streams@[#[trigger] keys[j]] == fenced(
                        streams[keys[j]],
                        keyspace_id,
                        file_id,
                    ),
                forall|j: int|
                    k <= j < keys.len() ==> self.append_streams@[#[trigger] keys[j]]
                        == streams[keys[j]],
            decreases ids@.len() - k,
        {
            let id = ids[k];
            let ghost then = self.append_streams@;
            assert(keys[k as int] == id);
            assert(streams.contains_key(keys[k as int]));
            assert(then.dom().contains(id));
            if let Some(stream) = self.append_streams.remove(id) {
                let LiveAppendStream { state, accepted_tail, base_writer_epoch } = stream;
                let active = match state.status {
                    AppendStreamStatus::Active => true,
                    _ => false,
                };
                let next = if active && state.keyspace_id.0 == keyspace_id.0 && state.file_id.0
                    == file_id.0 {
                    AppendStreamState { status: AppendStreamStatus::Fenced, ..state }
                } else {
                    state
                };
                self.append_streams.insert(
                    id,
                    LiveAppendStream { state: next, accepted_tail, base_writer_epoch },
                );
                proof {
                    assert(self.append_streams@.dom() =~= streams.dom());
                    assert forall|j: int| 0 <= j < keys.len() && j != k implies
                        self.append_streams@[#[trigger] keys[j]] == then[keys[j]] by {
                        assert(keys[j] != id) by {
                            if j < k {
                                assert(keys[j] < keys[k as int]);
                            } else {
                                assert(keys[k as int] < keys[j]);
                            }
                        }
                    }
                }
            }
            k = k + 1;
        }
        proof {
            let mapped = streams.map_values(
                |stream: LiveAppendStream| fenced(stream, keyspace_id, file_id),
            );
            assert forall|id: u128| #[trigger] streams.contains_key(id) implies
                self.append_streams@[id] == mapped[id] by {
                assert(keys.contains(id));
                let j = choose|j: int| 0 <= j < keys.len() && keys[j] == id;
                assert(self.append_streams@[keys[j]] == fenced(
                    streams[keys[j]],
                    keyspace_id,
                    file_id,
                ));
            }
            assert(self.append_streams@ =~= mapped);
        }
    }
}

/// Fencing leaves the streams well-formed.
pub proof fn lemma_fenced_streams_wf(
    logs: crate::read_plan::RunLogMap,
    streams: Map<u128, LiveAppendStream>,
    next_stream_id: u128,
    keyspace_id: KeyspaceId,
    file_id: FileId,
)
    requires
        streams_wf(logs, streams, next_stream_id),
    ensures
        streams_wf(
            logs,
            streams.map_values(
                |stream: LiveAppendStream| fenced(stream, keyspace_id, file_id),
            ),
            next_stream_id,
        ),
{
    let mapped = streams.map_values(
        |stream: LiveAppendStream| fenced(stream, keyspace_id, file_id),
    );
    assert forall|id: u128| #[trigger] mapped.contains_key(id) implies id < next_stream_id
        && stream_wf(logs, mapped[id], id) by {
        assert(streams.contains_key(id));
        assert(stream_wf(logs, streams[id], id));
        assert(mapped[id] == fenced(streams[id], keyspace_id, file_id));
    }
}

/// A range of a file's blocks and the segment that is to hold it.
pub struct NativeFileReceiptEdit {
    pub range: BlockRange,
    pub receipt: SegmentWriteReceipt,
}

pub struct NativeFileReceiptPublish {
    pub keyspace_id: KeyspaceId,
    pub file_id: FileId,
    pub base_version: FileVersion,
    pub committed_range: ByteRange,
    pub new_size: u64,
    pub edits: Vec<NativeFileReceiptEdit>,
    pub durability: WriteDurability,
}

/// A committed file write and the delta that it left.
pub struct NativeFileCommitWithDelta {
    pub commit: FileWriteCommit,
    pub delta: Option<NativeFileDeltaCommit>,
}

pub open spec fn receipt_edit_of(edit: NativeFileReceiptEdit) -> TreeRangeEdit {
    TreeRangeEdit {
        range: edit.range,
        replacement: Some(
            SegmentReplacement {
                segment_id: edit.receipt.segment_id,
                segment_base: edit.range.start,
            },
        ),
    }
}

pub open spec fn receipt_edits(edits: Seq<NativeFileReceiptEdit>) -> Seq<TreeRangeEdit> {
    edits.map_values(|edit: NativeFileReceiptEdit| receipt_edit_of(edit))
}

pub open spec fn receipts_of(edits: Seq<NativeFileReceiptEdit>) -> Seq<SegmentWriteReceipt> {
    edits.map_values(|edit: NativeFileReceiptEdit| edit.receipt)
}

/// The change of a file's tree that a delta entry stands for.
pub open spec fn file_delta_edit(entry: NativeFileDeltaEntry) -> TreeRangeEdit {
    let NativeFileDeltaReplacement::Segment { segment_id, segment_offset } = entry.replacement;
    TreeRangeEdit {
        range: entry.range,
        replacement: Some(
            SegmentReplacement {
                segment_id,
                segment_base: BlockIndex((entry.range.start.0 - segment_offset.0) as u64),
            },
        ),
    }
}

pub open spec fn file_delta_edits(entries: Seq<NativeFileDeltaEntry>) -> Seq<TreeRangeEdit> {
    entries.map_values(|entry: NativeFileDeltaEntry| file_delta_edit(entry))
}

impl LocalCoordinator {
    /// Whether only one file, and the streams that write to it, changed.
    pub open spec fn only_file_changed(
        &self,
        before: &LocalCoordinator,
        keyspace_id: KeyspaceId,
        file_id: FileId,
    ) -> bool {
        &&& self.wf()
        &&& self.keeps_store(before)
        &&& self.block_writer_epochs == before.block_writer_epochs
        &&& self.append_stream_storage_lanes == before.append_stream_storage_lanes
        &&& self.next_extent_id == before.next_extent_id
        &&& self.storage_nodes.node_ids@ == before.storage_nodes.node_ids@
        &&& self.read_profiler == before.read_profiler
        &&& self.metadata.rest_kept(&before.metadata, keyspace_id, file_id)
        &&& self.metadata.keyspace_heads@.dom() == before.metadata.keyspace_heads@.dom()
        &&& self.metadata.other_files_kept(&before.metadata, keyspace_id, file_id)
        &&& self.metadata.served_kept(&before.metadata)
    }

    /// The byte of a file after edits.
    pub open spec fn edited_file_byte(
        &self,
        edits: Seq<TreeRangeEdit>,
        byte: int,
        before: u8,
    ) -> u8 {
        if is_edited(edits, byte / self.block_size() as int) {
            let i = choose|i: int|
                0 <= i < edits.len() && (#[trigger] edits[i]).range.contains(
                    byte / self.block_size() as int,
                );
            segment_byte(
                self.segments(),
                edits[i].value_at(byte / self.block_size() as int),
                self.block_size(),
                byte,
            )
        } else {
            before
        }
    }

    /// Whether a file holds what edits make of what it held.
    pub open spec fn file_edited(
        &self,
        before: &LocalCoordinator,
        keyspace_id: KeyspaceId,
        file_id: FileId,
        edits: Seq<TreeRangeEdit>,
    ) -> bool {
        &&& self.metadata.has_file(keyspace_id, file_id)
        &&& self.file_limit(keyspace_id, file_id) == before.file_limit(keyspace_id, file_id)
        &&& forall|byte: int|
            0 <= byte < before.file_limit(keyspace_id, file_id) ==> #[trigger] self.file_byte(
                keyspace_id,
                file_id,
                byte,
            ) == self.edited_file_byte(edits, byte, before.file_byte(keyspace_id, file_id, byte))
        &&& forall|byte: int|
            0 <= byte < before.file_limit(keyspace_id, file_id) ==> edit_outcome(
                edits,
                byte / self.block_size() as int,
                before.file_block(keyspace_id, file_id, byte),
                #[trigger] self.file_block(keyspace_id, file_id, byte),
            )
        &&& forall|byte: int|
            0 <= byte < before.file_limit(keyspace_id, file_id) ==> #[trigger] self.file_run(
                keyspace_id,
                file_id,
                byte,
            ) == if is_edited(edits, byte / self.block_size() as int) {
                None
            } else {
                before.file_run(keyspace_id, file_id, byte)
            }
    }

    /// The segment block that holds a byte of a file, if one does.
    pub open spec fn file_block(
        &self,
        keyspace_id: KeyspaceId,
        file_id: FileId,
        byte: int,
    ) -> Option<SegmentBlock> {
        block_at(
            self.nodes(),
            self.metadata.file_head(keyspace_id, file_id)->0.root.0,
            byte / self.block_size() as int,
        )
    }

    /// The place in a run log that holds a byte of a file, if one does.
    pub open spec fn file_run(
        &self,
        keyspace_id: KeyspaceId,
        file_id: FileId,
        byte: int,
    ) -> Option<LogByte> {
        run_at(
            self.nodes(),
            self.metadata.file_head(keyspace_id, file_id)->0.root.0,
            self.block_size(),
            byte,
        )
    }

    /// Whether a publish of a file can get every number that it needs.
    pub open spec fn file_room(&self, keyspace_id: KeyspaceId, file_id: FileId) -> bool {
        &&& self.metadata.publish_room()
        &&& self.metadata.keyspace_heads@[keyspace_id.0].generation.0 + 1 < u64::MAX
        &&& self.metadata.file_head(keyspace_id, file_id)->0.version.0 + 1 < u64::MAX
    }

    /// Puts edits into a file's tree and publishes it.
    #[verifier::rlimit(80)]
    pub(crate) fn publish_file_edits(
        &mut self,
        keyspace_id: KeyspaceId,
        file_id: FileId,
        base_version: FileVersion,
        new_size: u64,
        edits: &Vec<TreeRangeEdit>,
    ) -> (result: Result<FileHead, StorageError>)
        requires
            old(self).wf(),
            old(self).metadata.has_file(keyspace_id, file_id),
            bases_wf(edits@),
        ensures
            final(self).only_file_changed(old(self), keyspace_id, file_id),
            final(self).metadata.catalogs_past_kept(&old(self).metadata),
            final(self).moved_within(old(self), 0),
            final(self).native_file_batch_profiler == old(self).native_file_batch_profiler,
            final(self).metadata.append_publish_tickets == old(
                self,
            ).metadata.append_publish_tickets,
            final(self).metadata.append_publish_in_flight == old(
                self,
            ).metadata.append_publish_in_flight,
            final(self).metadata.file_writer_epochs == old(self).metadata.file_writer_epochs,
            final(self).metadata.next_append_publish_ticket_id == old(
                self,
            ).metadata.next_append_publish_ticket_id,
            old(self).metadata.file_head(keyspace_id, file_id)->0.version != base_version ==> (
            result matches Err(error) && error is Conflict) && *final(self) == *old(self),
            final(self).storage_nodes == old(self).storage_nodes,
            final(self).append_run_logs == old(self).append_run_logs,
            final(self).next_write_intent == old(self).next_write_intent,
            final(self).metadata.append_streams == old(self).metadata.append_streams,
            final(self).metadata.next_append_stream_id == old(
                self,
            ).metadata.next_append_stream_id,
            result matches Ok(head) ==> {
                &&& old(self).metadata.file_head(keyspace_id, file_id)->0.version == base_version
                &&& final(self).metadata.file_head(keyspace_id, file_id) == Some(head)
                &&& head == old(self).metadata.published_head(
                    old(self).metadata.file_head(keyspace_id, file_id)->0,
                    head.root,
                    new_size,
                )
                &&& head.version.0 == base_version.0 + 1
                &&& final(self).metadata.next_commit_seq == old(self).metadata.next_commit_seq + 1
                &&& final(self).file_edited(old(self), keyspace_id, file_id, edits@)
            },
            result is Err ==> final(self).metadata.file_head(keyspace_id, file_id) == old(
                self,
            ).metadata.file_head(keyspace_id, file_id),
            result is Err ==> old(self).metadata.file_head(keyspace_id, file_id)->0.version
                != base_version || !edits_allowed(
                edits@,
                old(self).nodes()[old(self).metadata.file_head(
                    keyspace_id,
                    file_id,
                )->0.root.0].covered_range,
            ) || !edits_backed(edits@, old(self).segments()) || new_size > old(self).file_limit(
                keyspace_id,
                file_id,
            ) || !old(self).file_room(keyspace_id, file_id),
            result matches Ok(_) ==> final(self).metadata.file_commit_recorded(
                &old(self).metadata,
                keyspace_id,
                old(self).metadata.file_head(keyspace_id, file_id)->0,
                final(self).metadata.file_head(keyspace_id, file_id)->0,
            ),
            result is Ok ==> final(self).observability.counters == counted(
                old(self).observability.counters,
                StorageEventKind::MetadataPublishSucceeded,
            ),
    {
        let ghost before = *self;
        let bs: u64 = self.config.block_size as u64;
        proof {
            before.metadata.lemma_own_catalogs_past();
            before.metadata.lemma_own_records();
        }
        assert(self.metadata.files_wf(self.block_size()));
        let head = match self.metadata.get_file_head(keyspace_id, file_id) {
            Ok(head) => head,
            Err(error) => return Err(error),
        };
        proof {
            self.metadata.lemma_file_wf(keyspace_id, file_id, bs);
        }
        if head.version.0 != base_version.0 {
            return Err(StorageError::conflict("stale native file version"));
        }
        let edited = replace_tree_ranges(
            &mut self.metadata.trees,
            &self.storage_nodes.segments,
            bs,
            head.root,
            edits,
        );
        proof {
            lemma_devices_kept(
                before.nodes(),
                self.nodes(),
                before.metadata.device_specs@,
                before.metadata.device_heads@,
                before.metadata.deleted_device_heads@,
                before.metadata.shard_commits@,
                before.metadata.checkpoints@,
                bs,
                before.metadata.next_device_id,
            );
            lemma_catalog_kept(
                before.nodes(),
                self.nodes(),
                self.metadata.keyspace_catalog_shards@,
                bs,
                self.metadata.next_file_id,
                self.metadata.next_keyspace_catalog_shard_id,
            );
            assert(crate::read_plan::runs_backed(before.logs(), Seq::empty()));
            assert(crate::read_plan::tree_runs_backed(self.nodes(), self.logs()));
            assert(self.wf());
            self.metadata.trees.lemma_few_new(&before.metadata.trees);
            self.metadata.lemma_catalogs_past_carried(
                &before.metadata,
                &before.metadata,
                &before.metadata,
            );
        }
        let new_root = match edited {
            Ok(edit) => edit.root,
            Err(error) => return Err(error),
        };
        let ghost middle = *self;
        let published = self.metadata.publish_file_commit(
            keyspace_id,
            file_id,
            FileFence::Version(base_version),
            head.root,
            new_root,
            new_size,
            bs,
        );
        proof {
            self.metadata.lemma_catalogs_past_carried(
                &self.metadata,
                &middle.metadata,
                &before.metadata,
            );
        }
        match published {
            Ok(new_head) => {
                self.record_event(
                    StorageEventKind::MetadataPublishSucceeded,
                    None,
                    None,
                    Some(new_head.latest_commit),
                );
                proof {
                    assert(self.wf());
                    assert forall|byte: int|
                        0 <= byte < before.file_limit(keyspace_id, file_id) implies #[trigger]
                        self.file_byte(keyspace_id, file_id, byte) == self.edited_file_byte(
                        edits@,
                        byte,
                        before.file_byte(keyspace_id, file_id, byte),
                    ) by {
                        lemma_edited_file_byte(
                            before,
                            *self,
                            head.root,
                            new_root,
                            edits@,
                            byte,
                        );
                    }
                    assert forall|byte: int|
                        0 <= byte < before.file_limit(keyspace_id, file_id) implies
                        edit_outcome(
                        edits@,
                        byte / bs as int,
                        before.file_block(keyspace_id, file_id, byte),
                        #[trigger] self.file_block(keyspace_id, file_id, byte),
                    ) by {
                        lemma_block_of_byte(byte, before.nodes()[head.root.0].covered_range.end(), bs);
                        assert(before.nodes()[head.root.0].covered_range.contains(byte / bs as int));
                    }
                    assert forall|byte: int|
                        0 <= byte < before.file_limit(keyspace_id, file_id) implies
                        #[trigger] self.file_run(keyspace_id, file_id, byte) == (if is_edited(
                        edits@,
                        byte / bs as int,
                    ) {
                        None
                    } else {
                        before.file_run(keyspace_id, file_id, byte)
                    }) by {
                        lemma_block_of_byte(byte, before.nodes()[head.root.0].covered_range.end(), bs);
                        assert(before.nodes()[head.root.0].covered_range.contains(byte / bs as int));
                    }
                }
                Ok(new_head)
            },
            Err(error) => {
                self.record_publish_failure(&error);
                Err(error)
            },
        }
    }
}

proof fn lemma_edited_file_byte(
    before: LocalCoordinator,
    after: LocalCoordinator,
    root: MetadataNodeId,
    new_root: MetadataNodeId,
    edits: Seq<TreeRangeEdit>,
    byte: int,
)
    requires
        before.wf(),
        before.nodes().contains_key(root.0),
        after.segments() == before.segments(),
        after.logs() == before.logs(),
        after.config == before.config,
        before.nodes()[root.0].covered_range.start.0 == 0,
        0 <= byte < before.nodes()[root.0].covered_range.end() * before.block_size(),
        forall|block: int|
            before.nodes()[root.0].covered_range.contains(block) ==> edit_outcome(
                edits,
                block,
                block_at(before.nodes(), root.0, block),
                #[trigger] block_at(after.nodes(), new_root.0, block),
            ),
        forall|place: int|
            before.nodes()[root.0].covered_range.contains(place / before.block_size() as int)
                ==> #[trigger] run_at(after.nodes(), new_root.0, before.block_size(), place)
                == if is_edited(edits, place / before.block_size() as int) {
                None
            } else {
                run_at(before.nodes(), root.0, before.block_size(), place)
            },
    ensures
        tree_byte(
            after.nodes(),
            after.segments(),
            after.logs(),
            new_root,
            after.block_size(),
            byte,
        ) == after.edited_file_byte(
            edits,
            byte,
            tree_byte(
                before.nodes(),
                before.segments(),
                before.logs(),
                root,
                before.block_size(),
                byte,
            ),
        ),
{
    let bs = before.block_size();
    let block = byte / bs as int;
    lemma_block_of_byte(byte, before.nodes()[root.0].covered_range.end(), bs);
    assert(before.nodes()[root.0].covered_range.contains(block));
    assert(edit_outcome(
        edits,
        block,
        block_at(before.nodes(), root.0, block),
        block_at(after.nodes(), new_root.0, block),
    ));
    assert(run_at(after.nodes(), new_root.0, bs, byte) == if is_edited(edits, block) {
        None
    } else {
        run_at(before.nodes(), root.0, bs, byte)
    });
    if is_edited(edits, block) {
        let i = choose|i: int| 0 <= i < edits.len() && (#[trigger] edits[i]).range.contains(block);
        assert(block_at(after.nodes(), new_root.0, block) == edits[i].value_at(block));
    }
}

} // verus!
