//! Writing to files.
use vstd::prelude::*;

use crate::backing::lemma_tree_byte_kept;
use crate::batch::{
    PayloadByte, PayloadRun, collapse_native_file_batch_writes, file_batch_at, file_batch_end,
    file_batch_fits, lemma_file_batch_end, lemma_payload_run, lemma_payload_starts,
    lemma_run_places, payload_at, payload_starts, payload_wf, run_places, runs_joined, total_len,
};
use crate::block_api::{BlockRange, ByteRange, PayloadIntegrity, ReadVerification, WriteDurability};
use crate::block_commit::{receipts_usable, total_len_of};
use crate::coordinator::{LocalCoordinator, whole_blocks};
use crate::delta_records::{NativeFileDeltaCommit, NativeFileDeltaEntry, NativeFileDeltaReplacement};
use crate::device_trees::bases_wf;
use crate::error::StorageError;
use crate::file_groups::{
    NativeSegmentGroup, groups_take, lemma_group_payload, native_batch_segment_groups,
    native_batch_writes_cover_range, overlay_native_batch_writes, run_among,
};
use crate::file_publish::{
    NativeFileCommitWithDelta, NativeFileReceiptEdit, NativeFileReceiptPublish, fenced,
    file_delta_edit, file_delta_edits, lemma_fenced_streams_wf, receipt_edit_of, receipt_edits,
    receipts_of,
};
use crate::id::{BlockCount, BlockIndex, FileId, FileVersion, KeyspaceId};
use crate::integrity::payload_integrity_of;
use crate::metadata::LiveAppendStream;
use crate::metadata_files::stream_is_of;
use crate::metadata_records::FileHead;
use crate::native_api::{FileBatchWrite, FileWriteCommit};
use crate::observability::{
    NativeFileBatchCommitProfile, StorageEventKind, counted, ring_push, write_counted,
    write_counts_kept,
};
use crate::ranges::blocks_covering;
use crate::segment_records::{SegmentLifecycleState, SegmentWriteReceipt, WriteGrantIntent};
use crate::storage_nodes::{SegmentRecord, keeps_segments};
use crate::stored::{
    block_put, lemma_added_marked, lemma_none_pending, lemma_one_more_pending, named_by, names_new,
    pending_added, receipts_name_new, segments_added, segments_marked, stored_by,
};
use crate::tree::{TreeRangeEdit, edits_backed, is_edited};
use crate::tree_edit::{edit_outcome, edits_allowed, lemma_byte_in_blocks, lemma_mul_le};

verus! {

/// The most bytes that one batch of a file may hold.
pub const DEFAULT_NATIVE_FILE_BATCH_MAX_BYTES: u64 = 67_108_864;

/// Whether a receipt's segment is exactly as long as the blocks that it is for,
/// and these lie in the file's tree.
pub open spec fn receipt_edit_fits(
    edit: NativeFileReceiptEdit,
    covered: BlockRange,
    block_size: u64,
) -> bool {
    &&& edit.range.end() <= u64::MAX
    &&& covered.start.0 <= edit.range.start.0
    &&& edit.range.end() <= covered.end()
    &&& edit.receipt.descriptor.bytes == edit.range.blocks.0 * block_size
}

pub open spec fn receipt_edits_fit(
    edits: Seq<NativeFileReceiptEdit>,
    covered: BlockRange,
    block_size: u64,
) -> bool {
    forall|i: int|
        0 <= i < edits.len() ==> receipt_edit_fits(#[trigger] edits[i], covered, block_size)
}

/// The tree edits of receipts, if they fit the file.
fn check_receipt_edits(
    edits: &Vec<NativeFileReceiptEdit>,
    covered: BlockRange,
    block_size: u64,
) -> (result: Result<(Vec<TreeRangeEdit>, Vec<SegmentWriteReceipt>), StorageError>)
    requires
        covered.end() <= u64::MAX,
        covered.end() * block_size <= u64::MAX,
    ensures
        result is Ok <==> receipt_edits_fit(edits@, covered, block_size),
        result matches Ok((tree_edits, receipts)) ==> tree_edits@ == receipt_edits(edits@)
            && receipts@ == receipts_of(edits@) && bases_wf(tree_edits@),
        result matches Err(error) ==> error is InvalidArgument || error is Conflict,
{
    let mut tree_edits: Vec<TreeRangeEdit> = Vec::new();
    let mut receipts: Vec<SegmentWriteReceipt> = Vec::new();
    let mut i: usize = 0;
    while i < edits.len()
        invariant
            i <= edits@.len(),
            covered.end() <= u64::MAX,
            covered.end() * block_size <= u64::MAX,
            tree_edits@.len() == i,
            receipts@.len() == i,
            forall|k: int| 0 <= k < i ==> #[trigger] tree_edits@[k] == receipt_edit_of(edits@[k]),
            forall|k: int| 0 <= k < i ==> #[trigger] receipts@[k] == edits@[k].receipt,
            forall|k: int|
                0 <= k < i ==> receipt_edit_fits(#[trigger] edits@[k], covered, block_size),
        decreases edits@.len() - i,
    {
        let range = edits[i].range;
        let receipt = edits[i].receipt;
        match covered.contains_range(range) {
            Ok(inside) => {
                if !inside {
                    assert(!receipt_edit_fits(edits@[i as int], covered, block_size));
                    return Err(
                        StorageError::invalid_argument(
                            "native file batch exceeds file root coverage",
                        ),
                    );
                }
            },
            Err(error) => {
                assert(!receipt_edit_fits(edits@[i as int], covered, block_size));
                return Err(error);
            },
        }
        proof {
            assert(range.blocks.0 * block_size <= u64::MAX) by (nonlinear_arith)
                requires
                    range.end() <= covered.end(),
                    covered.end() * block_size <= u64::MAX,
                    range.end() == range.start.0 + range.blocks.0,
            ;
        }
        if receipt.descriptor.bytes != range.blocks.0 * block_size {
            assert(!receipt_edit_fits(edits@[i as int], covered, block_size));
            return Err(
                StorageError::conflict(
                    "native write receipt byte count does not match metadata intent",
                ),
            );
        }
        tree_edits.push(
            TreeRangeEdit {
                range,
                replacement: Some(
                    crate::tree::SegmentReplacement {
                        segment_id: receipt.segment_id,
                        segment_base: range.start,
                    },
                ),
            },
        );
        receipts.push(receipt);
        i = i + 1;
    }
    proof {
        assert(tree_edits@ =~= receipt_edits(edits@));
        assert(receipts@ =~= receipts_of(edits@));
    }
    Ok((tree_edits, receipts))
}

fn file_delta_entries(edits: &Vec<NativeFileReceiptEdit>) -> (entries: Vec<NativeFileDeltaEntry>)
    ensures
        file_delta_edits(entries@) == receipt_edits(edits@),
        entries@.len() == edits@.len(),
{
    let mut entries: Vec<NativeFileDeltaEntry> = Vec::new();
    let mut i: usize = 0;
    while i < edits.len()
        invariant
            i <= edits@.len(),
            entries@.len() == i,
            forall|k: int|
                0 <= k < i ==> file_delta_edit(#[trigger] entries@[k]) == receipt_edit_of(
                    edits@[k],
                ),
        decreases edits@.len() - i,
    {
        let entry = NativeFileDeltaEntry {
            range: edits[i].range,
            replacement: NativeFileDeltaReplacement::Segment {
                segment_id: edits[i].receipt.segment_id,
                segment_offset: BlockIndex(0),
            },
        };
        assert(file_delta_edit(entry) == receipt_edit_of(edits@[i as int]));
        entries.push(entry);
        i = i + 1;
    }
    assert(file_delta_edits(entries@) =~= receipt_edits(edits@));
    entries
}

/// The tree edits of a publish stay as they are while segments keep their bytes.
proof fn lemma_edited_bytes_kept(
    before: LocalCoordinator,
    middle: LocalCoordinator,
    after: LocalCoordinator,
    keyspace_id: KeyspaceId,
    file_id: FileId,
    edits: Seq<NativeFileReceiptEdit>,
)
    requires
        before.wf(),
        middle.wf(),
        middle.file_edited(&before, keyspace_id, file_id, receipt_edits(edits)),
        keeps_segments(middle.segments(), after.segments()),
        keeps_segments(after.segments(), middle.segments()),
        after.nodes() == middle.nodes(),
        after.logs() == middle.logs(),
        after.config == middle.config,
        after.metadata.file_head(keyspace_id, file_id) == middle.metadata.file_head(
            keyspace_id,
            file_id,
        ),
        forall|i: int|
            0 <= i < edits.len() ==> after.segments().contains_key(
                (#[trigger] edits[i]).receipt.segment_id.0,
            ),
    ensures
        after.file_edited(&before, keyspace_id, file_id, receipt_edits(edits)),
{
    let tree_edits = receipt_edits(edits);
    assert forall|byte: int|
        0 <= byte < before.file_limit(keyspace_id, file_id) implies #[trigger] after.file_byte(
        keyspace_id,
        file_id,
        byte,
    ) == after.edited_file_byte(
        tree_edits,
        byte,
        before.file_byte(keyspace_id, file_id, byte),
    ) by {
        assert(middle.file_byte(keyspace_id, file_id, byte) == middle.edited_file_byte(
            tree_edits,
            byte,
            before.file_byte(keyspace_id, file_id, byte),
        ));
        middle.metadata.lemma_file_wf(keyspace_id, file_id, middle.block_size());
        lemma_tree_byte_kept(
            middle,
            after,
            middle.metadata.file_head(keyspace_id, file_id)->0.root,
            byte,
        );
        let block = byte / after.block_size() as int;
        if is_edited(tree_edits, block) {
            let i = choose|i: int|
                0 <= i < tree_edits.len() && (#[trigger] tree_edits[i]).range.contains(block);
            assert(tree_edits[i] == receipt_edit_of(edits[i]));
            assert(after.segments().contains_key(edits[i].receipt.segment_id.0));
            assert(middle.segments().contains_key(edits[i].receipt.segment_id.0));
        }
    }
    lemma_places_kept(before, before, middle, after, keyspace_id, file_id, tree_edits);
}

/// Where a file's bytes are rests on its tree alone.
pub(crate) proof fn lemma_places_kept(
    early: LocalCoordinator,
    before: LocalCoordinator,
    middle: LocalCoordinator,
    after: LocalCoordinator,
    keyspace_id: KeyspaceId,
    file_id: FileId,
    edits: Seq<TreeRangeEdit>,
)
    requires
        middle.file_edited(&before, keyspace_id, file_id, edits),
        early.nodes() == before.nodes(),
        early.config == before.config,
        early.metadata.file_head(keyspace_id, file_id) == before.metadata.file_head(
            keyspace_id,
            file_id,
        ),
        after.nodes() == middle.nodes(),
        after.config == middle.config,
        after.metadata.file_head(keyspace_id, file_id) == middle.metadata.file_head(
            keyspace_id,
            file_id,
        ),
    ensures
        forall|byte: int|
            0 <= byte < early.file_limit(keyspace_id, file_id) ==> edit_outcome(
                edits,
                byte / after.block_size() as int,
                early.file_block(keyspace_id, file_id, byte),
                #[trigger] after.file_block(keyspace_id, file_id, byte),
            ),
        forall|byte: int|
            0 <= byte < early.file_limit(keyspace_id, file_id) ==> #[trigger] after.file_run(
                keyspace_id,
                file_id,
                byte,
            ) == if is_edited(edits, byte / after.block_size() as int) {
                None
            } else {
                early.file_run(keyspace_id, file_id, byte)
            },
{
    assert(early.file_limit(keyspace_id, file_id) == before.file_limit(keyspace_id, file_id));
    assert forall|byte: int| 0 <= byte < early.file_limit(keyspace_id, file_id) implies
        edit_outcome(
        edits,
        byte / after.block_size() as int,
        early.file_block(keyspace_id, file_id, byte),
        #[trigger] after.file_block(keyspace_id, file_id, byte),
    ) by {
        assert(after.file_block(keyspace_id, file_id, byte) == middle.file_block(
            keyspace_id,
            file_id,
            byte,
        ));
        assert(early.file_block(keyspace_id, file_id, byte) == before.file_block(
            keyspace_id,
            file_id,
            byte,
        ));
    }
    assert forall|byte: int| 0 <= byte < early.file_limit(keyspace_id, file_id) implies
        #[trigger] after.file_run(keyspace_id, file_id, byte) == (if is_edited(
        edits,
        byte / after.block_size() as int,
    ) {
        None
    } else {
        early.file_run(keyspace_id, file_id, byte)
    }) by {
        assert(after.file_run(keyspace_id, file_id, byte) == middle.file_run(
            keyspace_id,
            file_id,
            byte,
        ));
        assert(early.file_run(keyspace_id, file_id, byte) == before.file_run(
            keyspace_id,
            file_id,
            byte,
        ));
    }
}

impl LocalCoordinator {
    /// Whether receipts can be published as a file's new contents.
    pub open spec fn takes_file_edits(
        &self,
        keyspace_id: KeyspaceId,
        file_id: FileId,
        base_version: FileVersion,
        new_size: u64,
        edits: Seq<NativeFileReceiptEdit>,
    ) -> bool {
        let head = self.metadata.file_head(keyspace_id, file_id)->0;
        let covered = self.nodes()[head.root.0].covered_range;
        &&& self.metadata.has_file(keyspace_id, file_id)
        &&& head.version == base_version
        &&& edits.len() > 0 ==> {
            &&& receipt_edits_fit(edits, covered, self.block_size())
            &&& edits_allowed(receipt_edits(edits), covered)
            &&& edits_backed(receipt_edits(edits), self.segments())
            &&& receipts_usable(self.segments(), receipts_of(edits))
            &&& new_size <= self.file_limit(keyspace_id, file_id)
        }
    }

    /// Publishes segments as parts of a file, and fences the streams that write to
    /// it.
    #[verifier::rlimit(80)]
    pub fn publish_native_file_receipt_edits_with_delta(
        &mut self,
        publish: NativeFileReceiptPublish,
        write_count: u64,
        collapsed_range_count: u64,
        committed_bytes: u64,
    ) -> (result: Result<NativeFileCommitWithDelta, StorageError>)
        requires
            old(self).wf(),
        ensures
            final(self).only_file_changed(old(self), publish.keyspace_id, publish.file_id),
            final(self).metadata.catalogs_past_kept(&old(self).metadata),
            keeps_segments(final(self).segments(), old(self).segments()),
            final(self).append_run_logs == old(self).append_run_logs,
            final(self).moved_within(old(self), 0),
            final(self).next_write_intent == old(self).next_write_intent,
            final(self).storage_nodes.next_segment_id == old(self).storage_nodes.next_segment_id,
            final(self).storage_nodes.next_offset == old(self).storage_nodes.next_offset,
            final(self).native_file_batch_profiler == old(self).native_file_batch_profiler,
            final(self).metadata.append_publish_tickets == old(
                self,
            ).metadata.append_publish_tickets,
            final(self).metadata.file_writer_epochs == old(self).metadata.file_writer_epochs,
            result is Ok && publish.edits@.len() > 0 ==> final(self).metadata.append_streams@
                == old(self).metadata.append_streams@.map_values(
                |stream: LiveAppendStream| fenced(stream, publish.keyspace_id, publish.file_id),
            ),
            result is Err && receipts_usable(old(self).segments(), receipts_of(publish.edits@))
                ==> final(self).metadata.file_head(publish.keyspace_id, publish.file_id) == old(
                self,
            ).metadata.file_head(publish.keyspace_id, publish.file_id),
            result is Err && old(self).metadata.has_file(publish.keyspace_id, publish.file_id)
                && old(self).metadata.file_head(publish.keyspace_id, publish.file_id)->0.version
                != publish.base_version ==> *final(self) == *old(self),
            result is Ok ==> old(self).metadata.has_file(publish.keyspace_id, publish.file_id)
                && old(self).metadata.file_head(
                publish.keyspace_id,
                publish.file_id,
            )->0.version == publish.base_version,
            result matches Ok(committed) ==> committed.commit == (FileWriteCommit {
                keyspace_id: publish.keyspace_id,
                file_id: publish.file_id,
                range: publish.committed_range,
                version: final(self).metadata.file_head(
                    publish.keyspace_id,
                    publish.file_id,
                )->0.version,
                commit_seq: final(self).metadata.file_head(
                    publish.keyspace_id,
                    publish.file_id,
                )->0.latest_commit,
                durability: publish.durability,
            }),
            result matches Ok(committed) ==> publish.edits@.len() == 0 ==> *final(self) == *old(
                self,
            ) && committed.delta is None,
            result matches Ok(committed) ==> publish.edits@.len() > 0 ==> {
                &&& final(self).file_size(publish.keyspace_id, publish.file_id)
                    == publish.new_size
                &&& final(self).metadata.file_head(
                    publish.keyspace_id,
                    publish.file_id,
                )->0.version.0 == publish.base_version.0 + 1
                &&& committed.commit.commit_seq.0 == old(self).metadata.next_commit_seq
                &&& final(self).file_edited(
                    old(self),
                    publish.keyspace_id,
                    publish.file_id,
                    receipt_edits(publish.edits@),
                )
                &&& committed.delta matches Some(delta) && {
                    &&& delta.keyspace_id == publish.keyspace_id
                    &&& delta.file_id == publish.file_id
                    &&& delta.commit_seq == committed.commit.commit_seq
                    &&& delta.base_file_version == publish.base_version
                    &&& delta.new_file_version == committed.commit.version
                    &&& delta.old_size == old(self).file_size(
                        publish.keyspace_id,
                        publish.file_id,
                    )
                    &&& delta.new_size == publish.new_size
                    &&& delta.write_count == write_count
                    &&& delta.collapsed_range_count == collapsed_range_count
                    &&& delta.committed_bytes == committed_bytes
                    &&& file_delta_edits(delta.entries@) == receipt_edits(publish.edits@)
                }
            },
            old(self).takes_file_edits(
                publish.keyspace_id,
                publish.file_id,
                publish.base_version,
                publish.new_size,
                publish.edits@,
            ) ==> result is Ok || !old(self).file_room(
                publish.keyspace_id,
                publish.file_id,
            ),
            !old(self).metadata.has_file(publish.keyspace_id, publish.file_id) ==> (
            result matches Err(error) && error is NotFound),
            old(self).metadata.has_file(publish.keyspace_id, publish.file_id) && old(
                self,
            ).metadata.file_head(publish.keyspace_id, publish.file_id)->0.version
                != publish.base_version ==> (result matches Err(error) && error is Conflict),
            result matches Ok(committed) ==> (publish.edits@.len() > 0 ==> final(self).metadata.file_commit_recorded(
                &old(self).metadata,
                publish.keyspace_id,
                old(self).metadata.file_head(publish.keyspace_id, publish.file_id)->0,
                final(self).metadata.file_head(publish.keyspace_id, publish.file_id)->0,
            )),
            result is Ok ==> segments_marked(
                old(self).segments(),
                final(self).segments(),
                receipts_of(publish.edits@),
            ),
            result is Ok ==> forall|i: int|
                0 <= i < publish.edits@.len() ==> final(self).segments().contains_key(
                    (#[trigger] publish.edits@[i]).receipt.segment_id.0,
                ) && final(self).segments()[publish.edits@[i].receipt.segment_id.0].entry.state
                    == SegmentLifecycleState::Referenced
                    && final(self).segments()[publish.edits@[i].receipt.segment_id.0].entry.receipt
                    == Some(publish.edits@[i].receipt),
            result is Err && receipts_usable(old(self).segments(), receipts_of(publish.edits@))
                ==> final(self).storage_nodes == old(self).storage_nodes,
            result is Ok && publish.edits@.len() > 0 ==> final(self).observability.counters
                == counted(
                old(self).observability.counters,
                StorageEventKind::MetadataPublishSucceeded,
            ),
    {
        let ghost before = *self;
        proof {
            before.metadata.lemma_own_catalogs_past();
            before.metadata.lemma_own_records();
        }
        let bs: u64 = self.config.block_size as u64;
        let keyspace_id = publish.keyspace_id;
        let file_id = publish.file_id;
        assert(self.metadata.files_wf(self.block_size()));
        let head = match self.metadata.get_file_head(keyspace_id, file_id) {
            Ok(head) => head,
            Err(error) => return Err(error),
        };
        proof {
            self.metadata.lemma_file_wf(keyspace_id, file_id, bs);
            assert(crate::tree::node_wf(self.nodes(), head.root.0, bs));
        }
        if head.version.0 != publish.base_version.0 {
            return Err(StorageError::conflict("stale native file version"));
        }
        if publish.edits.len() == 0 {
            assert forall|id: u128| !named_by(receipts_of(publish.edits@), id) by {}
            return Ok(
                NativeFileCommitWithDelta {
                    commit: FileWriteCommit {
                        keyspace_id,
                        file_id,
                        range: publish.committed_range,
                        version: head.version,
                        commit_seq: head.latest_commit,
                        durability: publish.durability,
                    },
                    delta: None,
                },
            );
        }
        let covered = match self.metadata.trees.nodes.get(head.root.raw()) {
            Some(node) => node.covered_range,
            None => return Err(StorageError::not_found("metadata_node", head.root.raw())),
        };
        proof {
            assert(covered.end() <= u64::MAX) by (nonlinear_arith)
                requires
                    covered.end() * bs <= u64::MAX,
                    bs >= 1,
                    covered.end() >= 0,
            ;
        }
        let (tree_edits, receipts) = match check_receipt_edits(&publish.edits, covered, bs) {
            Ok(checked) => checked,
            Err(error) => return Err(error),
        };
        let published = self.publish_file_edits(
            keyspace_id,
            file_id,
            publish.base_version,
            publish.new_size,
            &tree_edits,
        );
        let ghost middle = *self;
        let new_head = match published {
            Ok(new_head) => new_head,
            Err(error) => return Err(error),
        };
        match self.mark_receipts_referenced(&receipts, new_head.latest_commit) {
            Ok(()) => {},
            Err(error) => return Err(error),
        }
        proof {
            assert forall|i: int| 0 <= i < publish.edits@.len() implies
                self.segments().contains_key(
                (#[trigger] publish.edits@[i]).receipt.segment_id.0,
            ) && self.segments()[publish.edits@[i].receipt.segment_id.0].entry.state
                == SegmentLifecycleState::Referenced
                && self.segments()[publish.edits@[i].receipt.segment_id.0].entry.receipt == Some(
                publish.edits@[i].receipt,
            ) by {
                assert(receipts@[i] == publish.edits@[i].receipt);
            }
            lemma_edited_bytes_kept(
                before,
                middle,
                *self,
                keyspace_id,
                file_id,
                publish.edits@,
            );
        }
        let ghost marked = *self;
        self.metadata.invalidate_append_streams_for_file(keyspace_id, file_id);
        proof {
            self.metadata.lemma_catalogs_past_carried(
                &middle.metadata,
                &before.metadata,
                &before.metadata,
            );
            assert(self.metadata.append_streams@.dom() =~= before.metadata.append_streams@.dom());
            assert forall|id: u128| #[trigger]
                before.metadata.append_streams@.contains_key(id) && !stream_is_of(
                    before.metadata.append_streams@[id],
                    keyspace_id,
                    file_id,
                ) implies self.metadata.append_streams@[id]
                == before.metadata.append_streams@[id] by {
                assert(marked.metadata.append_streams@ == before.metadata.append_streams@);
            }
            lemma_fenced_streams_wf(
                marked.logs(),
                marked.metadata.append_streams@,
                marked.metadata.next_append_stream_id,
                keyspace_id,
                file_id,
            );
            assert forall|k: KeyspaceId, f: FileId|
                (k != keyspace_id || f != file_id) && before.metadata.has_keyspace(
                    k,
                ) implies #[trigger] self.metadata.file_head(k, f) == before.metadata.file_head(
                k,
                f,
            ) by {
                assert(middle.metadata.file_head(k, f) == before.metadata.file_head(k, f));
            }
            assert(self.metadata.file_head(keyspace_id, file_id)
                == middle.metadata.file_head(keyspace_id, file_id));
            assert(self.file_edited(
                &before,
                keyspace_id,
                file_id,
                receipt_edits(publish.edits@),
            )) by {
                let tree_edits = receipt_edits(publish.edits@);
                assert forall|byte: int|
                    0 <= byte < before.file_limit(keyspace_id, file_id) implies #[trigger]
                    self.file_byte(keyspace_id, file_id, byte) == self.edited_file_byte(
                    tree_edits,
                    byte,
                    before.file_byte(keyspace_id, file_id, byte),
                ) by {
                    assert(marked.file_byte(keyspace_id, file_id, byte)
                        == marked.edited_file_byte(
                        tree_edits,
                        byte,
                        before.file_byte(keyspace_id, file_id, byte),
                    ));
                }
                lemma_places_kept(before, before, marked, *self, keyspace_id, file_id, tree_edits);
            }
        }
        let entries = file_delta_entries(&publish.edits);
        Ok(
            NativeFileCommitWithDelta {
                commit: FileWriteCommit {
                    keyspace_id,
                    file_id,
                    range: publish.committed_range,
                    version: new_head.version,
                    commit_seq: new_head.latest_commit,
                    durability: publish.durability,
                },
                delta: Some(
                    NativeFileDeltaCommit {
                        keyspace_id,
                        file_id,
                        commit_seq: new_head.latest_commit,
                        base_file_version: publish.base_version,
                        new_file_version: new_head.version,
                        old_size: head.size,
                        new_size: publish.new_size,
                        write_count,
                        collapsed_range_count,
                        committed_bytes,
                        entries,
                    },
                ),
            },
        )
    }
}

/// The byte that a batch leads to.
pub open spec fn byte_after_file_batch(
    runs: Seq<PayloadRun>,
    byte: int,
    size: int,
    before: u8,
) -> u8 {
    match payload_at(runs, byte) {
        Some(written) => written.value,
        None => if byte < size {
            before
        } else {
            0
        },
    }
}

/// Whether a batch writes behind the end of a file's tree.
pub open spec fn file_batch_beyond(writes: Seq<FileBatchWrite>, limit: int) -> bool {
    exists|place: int| place >= limit && #[trigger] file_batch_at(writes, place) is Some
}

/// Whether a batch writes to more places than one commit takes.
pub open spec fn file_batch_too_large(writes: Seq<FileBatchWrite>) -> bool {
    file_batch_places(writes).len() > DEFAULT_NATIVE_FILE_BATCH_MAX_BYTES
}

/// Whether an edit leads a group's blocks to a segment with the group's bytes.
pub open spec fn group_edit_holds(
    before: LocalCoordinator,
    segments: Map<u128, SegmentRecord>,
    keyspace_id: KeyspaceId,
    file_id: FileId,
    runs: Seq<PayloadRun>,
    group: NativeSegmentGroup,
    edit: NativeFileReceiptEdit,
) -> bool {
    let bs = before.block_size();
    let bytes = segments[edit.receipt.segment_id.0].bytes@;
    &&& edit.range.start.0 * bs == group.start
    &&& edit.range.end() * bs == group.end
    &&& edit.range.blocks.0 > 0
    &&& segments.contains_key(edit.receipt.segment_id.0)
    &&& segments[edit.receipt.segment_id.0].entry.receipt == Some(edit.receipt)
    &&& segments[edit.receipt.segment_id.0].entry.state
        == SegmentLifecycleState::DurablePendingMetadata
    &&& bytes.len() == group.end - group.start
    &&& edit.receipt.descriptor.bytes == bytes.len()
    &&& edit.receipt.descriptor.blocks.0 == edit.range.blocks.0
    &&& forall|k: int|
        0 <= k < bytes.len() ==> #[trigger] bytes[k] == byte_after_file_batch(
            runs,
            group.start + k,
            before.file_size(keyspace_id, file_id),
            before.file_byte(keyspace_id, file_id, group.start + k),
        )
}

/// What a byte of a file is after a batch: the written one inside the file, and
/// what was there, or zero, elsewhere.
pub open spec fn byte_applied(
    byte: u8,
    before: u8,
    written: Option<u8>,
    inside: bool,
    was_inside: bool,
    was_clean: bool,
) -> bool {
    match written {
        Some(value) => byte == value && inside,
        None => if was_inside {
            byte == before
        } else {
            was_clean ==> byte == 0
        },
    }
}

impl LocalCoordinator {
    /// The bytes of a group: what is written, over what the file holds.
    #[verifier::rlimit(60)]
    fn fill_group(
        &self,
        keyspace_id: KeyspaceId,
        file_id: FileId,
        size: u64,
        runs: &Vec<PayloadRun>,
        group: NativeSegmentGroup,
        groups: Ghost<Seq<NativeSegmentGroup>>,
        index: Ghost<int>,
    ) -> (result: Result<Vec<u8>, StorageError>)
        requires
            self.wf(),
            self.metadata.has_file(keyspace_id, file_id),
            size == self.file_size(keyspace_id, file_id),
            payload_wf(runs@, 1),
            groups_take(groups@, runs@, self.block_size(), runs@.len() as int),
            0 <= index@ < groups@.len(),
            group == groups@[index@],
        ensures
            result matches Ok(bytes) ==> bytes@.len() == group.end - group.start && forall|k: int|
                0 <= k < bytes@.len() ==> #[trigger] bytes@[k] == byte_after_file_batch(
                    runs@,
                    group.start + k,
                    size as int,
                    self.file_byte(keyspace_id, file_id, group.start + k),
                ),
            result is Err ==> group.end - group.start > usize::MAX || !whole_blocks(
                self.segments(),
                self.block_size(),
            ),
    {
        assert(group.wf(runs@, self.block_size()));
        let len: u64 = group.end - group.start;
        let len_usize: usize = len as usize;
        if len_usize as u64 != len {
            return Err(
                StorageError::invalid_argument("native batch segment length overflows usize"),
            );
        }
        let mut bytes: Vec<u8> = Vec::new();
        let mut preserved: u64 = 0;
        let mut covered = true;
        if group.start < size {
            let left: u64 = size - group.start;
            preserved = if left <= len {
                left
            } else {
                len
            };
            let range = ByteRange { offset: group.start, len: preserved };
            covered = native_batch_writes_cover_range(
                runs,
                group.first_write,
                group.last_write,
                range,
            );
            bytes.resize(preserved as usize, 0);
            if !covered {
                match self.read_file_with_verification(
                    keyspace_id,
                    file_id,
                    range,
                    bytes.as_mut_slice(),
                    ReadVerification::Default,
                ) {
                    Ok(()) => {},
                    Err(error) => return Err(error),
                }
            }
        }
        let ghost read = bytes@;
        bytes.resize(len_usize, 0);
        let ghost base = bytes@;
        overlay_native_batch_writes(
            group.start,
            runs,
            group.first_write,
            group.last_write,
            &mut bytes,
        );
        proof {
            assert forall|k: int| 0 <= k < bytes@.len() implies #[trigger] bytes@[k]
                == byte_after_file_batch(
                runs@,
                group.start + k,
                size as int,
                self.file_byte(keyspace_id, file_id, group.start + k),
            ) by {
                let byte = group.start + k;
                if payload_at(runs@, byte) is Some {
                    lemma_group_payload(
                        groups@,
                        runs@,
                        self.block_size(),
                        index@,
                        byte,
                    );
                    assert(run_among(
                        runs@,
                        group.first_write as int,
                        group.last_write as int,
                        byte,
                    ));
                } else {
                    assert(!run_among(
                        runs@,
                        group.first_write as int,
                        group.last_write as int,
                        byte,
                    )) by {
                        if run_among(
                            runs@,
                            group.first_write as int,
                            group.last_write as int,
                            byte,
                        ) {
                            let m = choose|m: int|
                                group.first_write <= m < group.last_write && (
                                #[trigger] runs@[m]).contains(byte);
                            crate::batch::lemma_payload_run(runs@, 1, m, byte);
                        }
                    }
                    if k < preserved {
                        assert(!covered) by {
                            if covered {
                                assert((ByteRange {
                                    offset: group.start,
                                    len: preserved,
                                }).contains(byte));
                            }
                        }
                        assert(base[k] == read[k]);
                    }
                }
            }
        }
        Ok(bytes)
    }

    /// Whether a file batch's contents are in the file.
    pub open spec fn file_batch_applied(
        &self,
        before: &LocalCoordinator,
        keyspace_id: KeyspaceId,
        file_id: FileId,
        writes: Seq<FileBatchWrite>,
    ) -> bool {
        let size = before.file_size(keyspace_id, file_id);
        &&& self.metadata.has_file(keyspace_id, file_id)
        &&& self.file_limit(keyspace_id, file_id) == before.file_limit(keyspace_id, file_id)
        &&& size <= self.file_size(keyspace_id, file_id)
        &&& forall|byte: int|
            0 <= byte < self.file_limit(keyspace_id, file_id) ==> byte_applied(
                #[trigger] self.file_byte(keyspace_id, file_id, byte),
                before.file_byte(keyspace_id, file_id, byte),
                file_batch_at(writes, byte),
                byte < self.file_size(keyspace_id, file_id),
                byte < size,
                before.clean_tail(keyspace_id, file_id),
            )
        &&& self.file_size(keyspace_id, file_id) == if file_batch_end(writes) > size {
            file_batch_end(writes)
        } else {
            size
        }
        &&& !file_batch_beyond(writes, self.file_limit(keyspace_id, file_id))
        &&& before.clean_tail(keyspace_id, file_id) ==> self.clean_tail(keyspace_id, file_id)
    }
}

impl LocalCoordinator {
    /// Stores a group of a batch as a segment.
    #[verifier::rlimit(100)]
    #[verifier::spinoff_prover]
    fn write_group_segment(
        &mut self,
        keyspace_id: KeyspaceId,
        file_id: FileId,
        head: FileHead,
        covered: BlockRange,
        runs: &Vec<PayloadRun>,
        groups: &Vec<NativeSegmentGroup>,
        g: usize,
        durability: WriteDurability,
        payload_integrity: PayloadIntegrity,
    ) -> (result: Result<NativeFileReceiptEdit, StorageError>)
        requires
            old(self).wf(),
            old(self).metadata.file_head(keyspace_id, file_id) == Some(head),
            covered == old(self).nodes()[head.root.0].covered_range,
            covered.end() <= u64::MAX,
            payload_wf(runs@, 1),
            grouped(groups@, runs@, old(self).block_size()),
            g < groups@.len(),
        ensures
            final(self).wf(),
            final(self).same_metadata(old(self)),
            final(self).storage_nodes.node_ids@ == old(self).storage_nodes.node_ids@,
            final(self).next_write_intent <= old(self).next_write_intent + 1,
            final(self).storage_nodes.next_segment_id <= old(self).storage_nodes.next_segment_id
                + 1,
            final(self).storage_nodes.next_offset <= old(self).storage_nodes.next_offset
                + groups@[g as int].end - groups@[g as int].start,
            result is Err && groups@[g as int].end > old(self).file_limit(keyspace_id, file_id)
                ==> final(self).storage_nodes.next_offset == old(self).storage_nodes.next_offset,
            write_counts_kept(
                old(self).observability.counters,
                final(self).observability.counters,
            ),
            result matches Ok(edit) ==> {
                let id = edit.receipt.segment_id.0;
                &&& group_edit_holds(
                    *old(self),
                    final(self).segments(),
                    keyspace_id,
                    file_id,
                    runs@,
                    groups@[g as int],
                    edit,
                )
                &&& edit.range.end() <= covered.end()
                &&& groups@[g as int].end <= old(self).file_limit(keyspace_id, file_id)
                &&& !old(self).segments().contains_key(id)
                &&& final(self).segments().remove(id) == old(self).segments()
                &&& final(self).segments()[id].bytes@.len() as int % old(self).block_size() as int
                    == 0
                &&& edit.receipt.integrity == payload_integrity_of(
                    payload_integrity,
                    final(self).segments()[id].bytes@,
                )
            },
            result is Err ==> final(self).segments() == old(self).segments(),
            result is Err ==> groups@[g as int].end > old(self).file_limit(keyspace_id, file_id)
                || old(self).file_limit(keyspace_id, file_id) > usize::MAX || !whole_blocks(
                old(self).segments(),
                old(self).block_size(),
            ) || old(self).next_write_intent == u128::MAX
                || old(self).storage_nodes.next_segment_id == u128::MAX
                || old(self).storage_nodes.next_offset + groups@[g as int].end
                - groups@[g as int].start > u64::MAX,
    {
        let ghost before = *self;
        let bs: u64 = self.config.block_size as u64;
        let ghost b = bs as int;
        proof {
            reveal(grouped);
            before.metadata.lemma_file_wf(keyspace_id, file_id, bs);
        }
        let group = groups[g];
        let ghost limit = before.file_limit(keyspace_id, file_id);
        assert(groups@[g as int].wf(runs@, bs));
        let len: u64 = group.end - group.start;
        let first_block: u64 = group.start / bs;
        let blocks: u64 = len / bs;
        let range = BlockRange { start: BlockIndex(first_block), blocks: BlockCount(blocks) };
        proof {
            lemma_group_blocks(group.start as int, group.end as int, range, bs);
        }
        match covered.contains_range(range) {
            Ok(inside) => {
                if !inside {
                    proof {
                        assert(group.end > limit) by (nonlinear_arith)
                            requires
                                range.end() > covered.end(),
                                range.end() * b == group.end,
                                limit == covered.end() * b,
                                b > 0,
                        ;
                    }
                    return Err(
                        StorageError::invalid_argument(
                            "native file batch exceeds file root coverage",
                        ),
                    );
                }
            },
            Err(error) => return Err(error),
        }
        proof {
            lemma_mul_le(range.end(), covered.end(), b);
            assert(group.end <= limit);
        }
        let bytes = match self.fill_group(
            keyspace_id,
            file_id,
            head.size,
            runs,
            group,
            Ghost(groups@),
            Ghost(g as int),
        ) {
            Ok(bytes) => bytes,
            Err(error) => return Err(error),
        };
        let write_intent = match self.take_write_intent() {
            Ok(write_intent) => write_intent,
            Err(error) => return Err(error),
        };
        let intent = WriteGrantIntent::NativeWrite {
            keyspace_id,
            file_id,
            range: ByteRange { offset: group.start, len },
            base_version: head.version,
        };
        let ghost content = bytes@;
        let receipt = match self.write_segment_for_intent(
            intent,
            write_intent,
            bytes,
            durability,
            payload_integrity,
        ) {
            Ok(receipt) => receipt,
            Err(error) => return Err(error),
        };
        let edit = NativeFileReceiptEdit { range, receipt };
        proof {
            assert(blocks_covering(len as int, b) == blocks) by {
                assert(len == blocks * b);
                assert(len as int + b - 1 == blocks * b + (b - 1));
                vstd::arithmetic::div_mod::lemma_fundamental_div_mod_converse(
                    len as int + b - 1,
                    b,
                    blocks as int,
                    b - 1,
                );
            }
            assert(len as int % b == 0) by {
                vstd::arithmetic::div_mod::lemma_mod_multiples_basic(blocks as int, b);
            }
            assert(group_edit_holds(
                before,
                self.segments(),
                keyspace_id,
                file_id,
                runs@,
                group,
                edit,
            ));
        }
        Ok(edit)
    }

    /// Stores the groups of a batch as segments.
    #[verifier::rlimit(100)]
    #[verifier::spinoff_prover]
    fn write_group_segments(
        &mut self,
        keyspace_id: KeyspaceId,
        file_id: FileId,
        head: FileHead,
        covered: BlockRange,
        runs: &Vec<PayloadRun>,
        groups: &Vec<NativeSegmentGroup>,
        durability: WriteDurability,
        payload_integrity: PayloadIntegrity,
    ) -> (result: Result<Vec<NativeFileReceiptEdit>, StorageError>)
        requires
            old(self).wf(),
            old(self).metadata.file_head(keyspace_id, file_id) == Some(head),
            covered == old(self).nodes()[head.root.0].covered_range,
            covered.end() <= u64::MAX,
            payload_wf(runs@, 1),
            groups_take(groups@, runs@, old(self).block_size(), runs@.len() as int),
        ensures
            final(self).wf(),
            final(self).same_metadata(old(self)),
            keeps_segments(old(self).segments(), final(self).segments()),
            whole_blocks(old(self).segments(), old(self).block_size()) ==> whole_blocks(
                final(self).segments(),
                final(self).block_size(),
            ),
            result matches Ok(edits) ==> edits@.len() == groups@.len() && forall|i: int|
                0 <= i < edits@.len() ==> group_edit_holds(
                    *old(self),
                    final(self).segments(),
                    keyspace_id,
                    file_id,
                    runs@,
                    groups@[i],
                    #[trigger] edits@[i],
                ) && edits@[i].range.end() <= covered.end(),
            pending_added(
                old(self).segments(),
                final(self).segments(),
                payload_integrity,
                old(self).block_size(),
            ),
            result matches Ok(edits) ==> receipts_name_new(
                old(self).segments(),
                final(self).segments(),
                receipts_of(edits@),
            ),
            write_counts_kept(
                old(self).observability.counters,
                final(self).observability.counters,
            ),
            final(self).next_write_intent <= old(self).next_write_intent + groups@.len(),
            final(self).storage_nodes.node_ids@ == old(self).storage_nodes.node_ids@,
            final(self).storage_nodes.next_segment_id <= old(self).storage_nodes.next_segment_id
                + groups@.len(),
            final(self).storage_nodes.next_offset <= old(self).storage_nodes.next_offset + old(
                self,
            ).file_limit(keyspace_id, file_id),
            result is Err ==> !whole_blocks(old(self).segments(), old(self).block_size())
                || !old(self).room_for(0) || (exists|i: int|
                0 <= i < groups@.len() && (#[trigger] groups@[i]).end > old(self).file_limit(
                    keyspace_id,
                    file_id,
                )) || old(self).storage_nodes.next_offset + old(self).file_limit(
                keyspace_id,
                file_id,
            ) > u64::MAX || old(self).file_limit(keyspace_id, file_id) > usize::MAX,
    {
        let ghost before = *self;
        let bs: u64 = self.config.block_size as u64;
        let ghost b = bs as int;
        proof {
            before.metadata.lemma_file_wf(keyspace_id, file_id, bs);
            assert(before.file_limit(keyspace_id, file_id) >= 0) by (nonlinear_arith)
                requires
                    before.file_limit(keyspace_id, file_id) == covered.end() * bs,
                    covered.end() >= 0,
                    bs > 0,
            ;
        }
        let mut edits: Vec<NativeFileReceiptEdit> = Vec::new();
        let mut g: usize = 0;
        proof {
            lemma_none_pending(
                before.segments(),
                receipts_of(edits@),
                payload_integrity,
                bs,
            );
            reveal(groups_stored);
            reveal(grouped);
        }
        while g < groups.len()
            invariant
                g <= groups@.len(),
                before == *old(self),
                before.wf(),
                bs == before.block_size(),
                b == bs as int,
                bs > 0,
                before.metadata.file_head(keyspace_id, file_id) == Some(head),
                before.nodes().contains_key(head.root.0),
                covered == before.nodes()[head.root.0].covered_range,
                covered.start.0 == 0,
                covered.end() <= u64::MAX,
                payload_wf(runs@, 1),
                grouped(groups@, runs@, bs),
                self.wf(),
                self.same_metadata(&before),
                keeps_segments(before.segments(), self.segments()),
                whole_blocks(before.segments(), bs) ==> whole_blocks(self.segments(), bs),
                self.next_write_intent <= before.next_write_intent + g,
                self.storage_nodes.node_ids@ == before.storage_nodes.node_ids@,
                self.storage_nodes.next_segment_id <= before.storage_nodes.next_segment_id + g,
                g == 0 ==> self.storage_nodes.next_offset == before.storage_nodes.next_offset,
                g > 0 ==> self.storage_nodes.next_offset <= before.storage_nodes.next_offset
                    + groups@[g - 1].end && groups@[g - 1].end <= before.file_limit(
                    keyspace_id,
                    file_id,
                ),
                before.file_limit(keyspace_id, file_id) >= 0,
                pending_added(before.segments(), self.segments(), payload_integrity, bs),
                receipts_name_new(before.segments(), self.segments(), receipts_of(edits@)),
                write_counts_kept(before.observability.counters, self.observability.counters),
                edits@.len() == g,
                groups_stored(
                    before,
                    self.segments(),
                    keyspace_id,
                    file_id,
                    covered,
                    runs@,
                    groups@,
                    edits@,
                ),
            decreases groups@.len() - g,
        {
            let ghost current = *self;
            let ghost edits_before = edits@;
            proof {
                assert(self.metadata.file_head(keyspace_id, file_id) == Some(head));
                assert(groups@.len() == groups.len());
                lemma_grouped_at(groups@, runs@, bs, g as int);
            }
            let edit = match self.write_group_segment(
                keyspace_id,
                file_id,
                head,
                covered,
                runs,
                groups,
                g,
                durability,
                payload_integrity,
            ) {
                Ok(edit) => edit,
                Err(error) => return Err(error),
            };
            edits.push(edit);
            proof {
                lemma_group_taken(
                    before,
                    current,
                    self.segments(),
                    keyspace_id,
                    file_id,
                    covered,
                    runs@,
                    groups@,
                    edits_before,
                    edit,
                    payload_integrity,
                );
                assert(edits@ =~= edits_before.push(edit));
            }
            g = g + 1;
        }
        proof {
            reveal(groups_stored);
        }
        Ok(edits)
    }
}

/// Whether the edits of a batch's first groups lead to segments with their bytes.
#[verifier::opaque]
spec fn groups_stored(
    before: LocalCoordinator,
    segments: Map<u128, SegmentRecord>,
    keyspace_id: KeyspaceId,
    file_id: FileId,
    covered: BlockRange,
    runs: Seq<PayloadRun>,
    groups: Seq<NativeSegmentGroup>,
    edits: Seq<NativeFileReceiptEdit>,
) -> bool {
    forall|i: int|
        0 <= i < edits.len() ==> group_edit_holds(
            before,
            segments,
            keyspace_id,
            file_id,
            runs,
            groups[i],
            #[trigger] edits[i],
        ) && edits[i].range.end() <= covered.end()
}

/// Whether runs are taken up by groups.
#[verifier::opaque]
spec fn grouped(
    groups: Seq<NativeSegmentGroup>,
    runs: Seq<PayloadRun>,
    block_size: u64,
) -> bool {
    groups_take(groups, runs, block_size, runs.len() as int)
}

/// Groups follow one another.
proof fn lemma_grouped_at(
    groups: Seq<NativeSegmentGroup>,
    runs: Seq<PayloadRun>,
    block_size: u64,
    at: int,
)
    requires
        grouped(groups, runs, block_size),
        0 <= at < groups.len(),
    ensures
        groups[at].start <= groups[at].end,
        at > 0 ==> groups[at - 1].end < groups[at].start,
{
    reveal(grouped);
    assert(groups[at].wf(runs, block_size));
}

/// One more group that is stored.
proof fn lemma_group_taken(
    before: LocalCoordinator,
    current: LocalCoordinator,
    segments: Map<u128, SegmentRecord>,
    keyspace_id: KeyspaceId,
    file_id: FileId,
    covered: BlockRange,
    runs: Seq<PayloadRun>,
    groups: Seq<NativeSegmentGroup>,
    edits: Seq<NativeFileReceiptEdit>,
    edit: NativeFileReceiptEdit,
    policy: PayloadIntegrity,
)
    requires
        before.wf(),
        before.metadata.has_file(keyspace_id, file_id),
        current.same_metadata(&before),
        keeps_segments(before.segments(), current.segments()),
        groups_stored(
            before,
            current.segments(),
            keyspace_id,
            file_id,
            covered,
            runs,
            groups,
            edits,
        ),
        edits.len() < groups.len(),
        group_edit_holds(
            current,
            segments,
            keyspace_id,
            file_id,
            runs,
            groups[edits.len() as int],
            edit,
        ),
        edit.range.end() <= covered.end(),
        !current.segments().contains_key(edit.receipt.segment_id.0),
        segments.remove(edit.receipt.segment_id.0) == current.segments(),
        segments[edit.receipt.segment_id.0].bytes@.len() as int % before.block_size() as int == 0,
        edit.receipt.integrity == payload_integrity_of(
            policy,
            segments[edit.receipt.segment_id.0].bytes@,
        ),
        pending_added(before.segments(), current.segments(), policy, before.block_size()),
        receipts_name_new(before.segments(), current.segments(), receipts_of(edits)),
    ensures
        groups_stored(
            before,
            segments,
            keyspace_id,
            file_id,
            covered,
            runs,
            groups,
            edits.push(edit),
        ),
        pending_added(before.segments(), segments, policy, before.block_size()),
        receipts_name_new(before.segments(), segments, receipts_of(edits.push(edit))),
        keeps_segments(before.segments(), segments),
        whole_blocks(current.segments(), before.block_size()) ==> whole_blocks(
            segments,
            before.block_size(),
        ),
{
    reveal(groups_stored);
    let receipt = edit.receipt;
    let more = edits.push(edit);
    assert(receipts_of(more) =~= receipts_of(edits).push(receipt));
    lemma_one_more_pending(
        before.segments(),
        current.segments(),
        segments,
        receipts_of(edits),
        receipt,
        policy,
        before.block_size(),
    );
    current.lemma_file_bytes_kept(&before, keyspace_id, file_id);
    lemma_group_lifted(
        before,
        current,
        segments,
        keyspace_id,
        file_id,
        runs,
        groups[edits.len() as int],
        edit,
    );
    assert forall|id: u128| #[trigger] current.segments().contains_key(id) implies
        segments.contains_key(id) && segments[id] == current.segments()[id] by {
        assert(segments.remove(receipt.segment_id.0)[id] == current.segments()[id]);
    }
    assert forall|i: int| 0 <= i < more.len() implies group_edit_holds(
        before,
        segments,
        keyspace_id,
        file_id,
        runs,
        groups[i],
        #[trigger] more[i],
    ) && more[i].range.end() <= covered.end() by {
        if i < edits.len() {
            assert(more[i] == edits[i]);
            assert(current.segments().contains_key(edits[i].receipt.segment_id.0));
        }
    }
    assert forall|id: u128| whole_blocks(current.segments(), before.block_size())
        && #[trigger] segments.contains_key(id) implies segments[id].bytes@.len() as int
        % before.block_size() as int == 0 by {
        if id != receipt.segment_id.0 {
            assert(segments.remove(receipt.segment_id.0).contains_key(id));
        }
    }
}

/// What a group's segment holds rests on the file's bytes alone.
proof fn lemma_group_lifted(
    before: LocalCoordinator,
    current: LocalCoordinator,
    segments: Map<u128, SegmentRecord>,
    keyspace_id: KeyspaceId,
    file_id: FileId,
    runs: Seq<PayloadRun>,
    group: NativeSegmentGroup,
    edit: NativeFileReceiptEdit,
)
    requires
        group_edit_holds(current, segments, keyspace_id, file_id, runs, group, edit),
        current.config == before.config,
        current.metadata == before.metadata,
        forall|byte: int| #[trigger]
            current.file_byte(keyspace_id, file_id, byte) == before.file_byte(
                keyspace_id,
                file_id,
                byte,
            ),
    ensures
        group_edit_holds(before, segments, keyspace_id, file_id, runs, group, edit),
{
    let bytes = segments[edit.receipt.segment_id.0].bytes@;
    assert forall|k: int| 0 <= k < bytes.len() implies #[trigger] bytes[k]
        == byte_after_file_batch(
        runs,
        group.start + k,
        before.file_size(keyspace_id, file_id),
        before.file_byte(keyspace_id, file_id, group.start + k),
    ) by {
        assert(current.file_byte(keyspace_id, file_id, group.start + k) == before.file_byte(
            keyspace_id,
            file_id,
            group.start + k,
        ));
    }
}

proof fn lemma_group_blocks(start: int, end: int, range: BlockRange, block_size: u64)
    requires
        block_size > 0,
        0 <= start < end,
        end <= u64::MAX,
        start % block_size as int == 0,
        end % block_size as int == 0,
        range.start.0 == start / block_size as int,
        range.blocks.0 == (end - start) / block_size as int,
    ensures
        range.start.0 * block_size == start,
        range.end() * block_size == end,
        range.blocks.0 * block_size == end - start,
        range.blocks.0 > 0,
        range.end() <= u64::MAX,
{
    let b = block_size as int;
    vstd::arithmetic::div_mod::lemma_fundamental_div_mod(start, b);
    vstd::arithmetic::div_mod::lemma_fundamental_div_mod(end, b);
    let q = end / b - start / b;
    assert(end - start == b * q) by (nonlinear_arith)
        requires
            start == b * (start / b),
            end == b * (end / b),
            q == end / b - start / b,
    ;
    vstd::arithmetic::div_mod::lemma_fundamental_div_mod_converse(end - start, b, q, 0);
    assert(range.blocks.0 == q);
    assert(range.start.0 * b == start && range.end() * b == end && range.blocks.0 * b == end
        - start) by (nonlinear_arith)
        requires
            range.start.0 == start / b,
            range.blocks.0 == q,
            range.end() == range.start.0 + range.blocks.0,
            start == b * (start / b),
            end - start == b * q,
    ;
    assert(q > 0 && range.end() <= u64::MAX) by (nonlinear_arith)
        requires
            range.blocks.0 == q,
            range.blocks.0 * b == end - start,
            end > start,
            range.end() * b == end,
            end <= u64::MAX,
            b >= 1,
            range.end() >= 0,
    ;
}

/// The edits of a batch's groups can be published.
#[verifier::spinoff_prover]
#[verifier::rlimit(60)]
proof fn lemma_group_edits(
    before: LocalCoordinator,
    after: LocalCoordinator,
    keyspace_id: KeyspaceId,
    file_id: FileId,
    runs: Seq<PayloadRun>,
    groups: Seq<NativeSegmentGroup>,
    edits: Seq<NativeFileReceiptEdit>,
    covered: BlockRange,
)
    requires
        before.block_size() > 0,
        after.config == before.config,
        covered.start.0 == 0,
        covered.end() <= u64::MAX,
        groups_take(groups, runs, before.block_size(), runs.len() as int),
        edits.len() == groups.len(),
        forall|i: int|
            0 <= i < edits.len() ==> group_edit_holds(
                before,
                after.segments(),
                keyspace_id,
                file_id,
                runs,
                groups[i],
                #[trigger] edits[i],
            ) && edits[i].range.end() <= covered.end(),
    ensures
        receipt_edits_fit(edits, covered, before.block_size()),
        edits_allowed(receipt_edits(edits), covered),
        edits_backed(receipt_edits(edits), after.segments()),
        receipts_usable(after.segments(), receipts_of(edits)),
{
    let bs = before.block_size();
    let b = bs as int;
    let tree_edits = receipt_edits(edits);
    assert forall|i: int| 0 <= i < edits.len() implies receipt_edit_fits(
        #[trigger] edits[i],
        covered,
        bs,
    ) by {
        assert(group_edit_holds(
            before,
            after.segments(),
            keyspace_id,
            file_id,
            runs,
            groups[i],
            edits[i],
        ));
        let range = edits[i].range;
        assert(range.blocks.0 * b == range.end() * b - range.start.0 * b) by (nonlinear_arith)
            requires
                range.end() == range.start.0 + range.blocks.0,
        ;
    }
    assert forall|i: int| 0 <= i < tree_edits.len() implies (
    #[trigger] tree_edits[i]).range.blocks.0 > 0 && tree_edits[i].range.end() <= u64::MAX
        && covered.start.0 <= tree_edits[i].range.start.0 && tree_edits[i].range.end()
        <= covered.end() && tree_edits[i].backed(after.segments()) by {
        assert(tree_edits[i] == receipt_edit_of(edits[i]));
        assert(group_edit_holds(
            before,
            after.segments(),
            keyspace_id,
            file_id,
            runs,
            groups[i],
            edits[i],
        ));
    }
    assert forall|i: int, j: int| 0 <= i < j < tree_edits.len() implies (
    #[trigger] tree_edits[i]).range.end() <= (#[trigger] tree_edits[j]).range.start.0 by {
        assert(tree_edits[i] == receipt_edit_of(edits[i]));
        assert(tree_edits[j] == receipt_edit_of(edits[j]));
        assert(group_edit_holds(
            before,
            after.segments(),
            keyspace_id,
            file_id,
            runs,
            groups[i],
            edits[i],
        ));
        assert(group_edit_holds(
            before,
            after.segments(),
            keyspace_id,
            file_id,
            runs,
            groups[j],
            edits[j],
        ));
        assert(groups[i].end < groups[j].start);
        let (e, s) = (edits[i].range.end(), edits[j].range.start.0 as int);
        assert(e <= s) by (nonlinear_arith)
            requires
                e * b < s * b,
                b > 0,
        ;
    }
    assert forall|i: int, j: int|
        0 <= i < tree_edits.len() && 0 <= j < tree_edits.len() && (#[trigger] tree_edits[i]) != (
        #[trigger] tree_edits[j]) implies tree_edits[i].range.end() <= tree_edits[j].range.start.0
        || tree_edits[j].range.end() <= tree_edits[i].range.start.0 by {
        if i < j {
            assert(tree_edits[i].range.end() <= tree_edits[j].range.start.0);
        } else if j < i {
            assert(tree_edits[j].range.end() <= tree_edits[i].range.start.0);
        }
    }
    assert forall|i: int, j: int| 0 <= i < tree_edits.len() && 0 <= j < tree_edits.len() && i
        != j implies tree_edits[i] != tree_edits[j] by {
        if i < j {
            assert(tree_edits[i].range.end() <= tree_edits[j].range.start.0);
        } else {
            assert(tree_edits[j].range.end() <= tree_edits[i].range.start.0);
        }
    }
    let receipts = receipts_of(edits);
    assert forall|i: int| 0 <= i < receipts.len() implies after.segments().contains_key(
        (#[trigger] receipts[i]).segment_id.0,
    ) && after.segments()[receipts[i].segment_id.0].entry.receipt == Some(receipts[i]) && (
    after.segments()[receipts[i].segment_id.0].entry.state
        == SegmentLifecycleState::DurablePendingMetadata
        || after.segments()[receipts[i].segment_id.0].entry.state
        == SegmentLifecycleState::Referenced) by {
        assert(receipts[i] == edits[i].receipt);
        assert(group_edit_holds(
            before,
            after.segments(),
            keyspace_id,
            file_id,
            runs,
            groups[i],
            edits[i],
        ));
    }
}

/// The byte of a file after a batch was published.
proof fn lemma_file_batch_byte(
    before: LocalCoordinator,
    middle: LocalCoordinator,
    after: LocalCoordinator,
    keyspace_id: KeyspaceId,
    file_id: FileId,
    runs: Seq<PayloadRun>,
    groups: Seq<NativeSegmentGroup>,
    edits: Seq<NativeFileReceiptEdit>,
    byte: int,
)
    requires
        before.wf(),
        before.metadata.has_file(keyspace_id, file_id),
        middle.same_metadata(&before),
        keeps_segments(before.segments(), middle.segments()),
        keeps_segments(middle.segments(), after.segments()),
        after.config == before.config,
        after.file_edited(&middle, keyspace_id, file_id, receipt_edits(edits)),
        payload_wf(runs, 1),
        groups_take(groups, runs, before.block_size(), runs.len() as int),
        edits.len() == groups.len(),
        forall|i: int|
            0 <= i < edits.len() ==> group_edit_holds(
                before,
                middle.segments(),
                keyspace_id,
                file_id,
                runs,
                groups[i],
                #[trigger] edits[i],
            ),
        0 <= byte < before.file_limit(keyspace_id, file_id),
    ensures
        after.file_byte(keyspace_id, file_id, byte) == byte_after_file_batch(
            runs,
            byte,
            before.file_size(keyspace_id, file_id),
            before.file_byte(keyspace_id, file_id, byte),
        ) || (payload_at(runs, byte) is None && after.file_byte(keyspace_id, file_id, byte)
            == before.file_byte(keyspace_id, file_id, byte)),
{
    let bs = before.block_size();
    let b = bs as int;
    let block = byte / b;
    let tree_edits = receipt_edits(edits);
    before.metadata.lemma_file_wf(keyspace_id, file_id, bs);
    lemma_tree_byte_kept(
        before,
        middle,
        before.metadata.file_head(keyspace_id, file_id)->0.root,
        byte,
    );
    assert(after.file_byte(keyspace_id, file_id, byte) == after.edited_file_byte(
        tree_edits,
        byte,
        middle.file_byte(keyspace_id, file_id, byte),
    ));
    if is_edited(tree_edits, block) {
        let i = choose|i: int|
            0 <= i < tree_edits.len() && (#[trigger] tree_edits[i]).range.contains(block);
        assert(tree_edits[i] == receipt_edit_of(edits[i]));
        let edit = edits[i];
        assert(group_edit_holds(
            before,
            middle.segments(),
            keyspace_id,
            file_id,
            runs,
            groups[i],
            edit,
        ));
        let id = edit.receipt.segment_id.0;
        assert(middle.segments().contains_key(id));
        lemma_byte_in_blocks(edit.range, bs, byte);
        vstd::arithmetic::div_mod::lemma_fundamental_div_mod(byte, b);
        let k = byte - groups[i].start;
        assert((block - edit.range.start.0) * b + byte % b == k) by (nonlinear_arith)
            requires
                byte == b * block + byte % b,
                edit.range.start.0 * b == groups[i].start,
                k == byte - groups[i].start,
        ;
        assert(middle.segments()[id].bytes@[k] == byte_after_file_batch(
            runs,
            groups[i].start + k,
            before.file_size(keyspace_id, file_id),
            before.file_byte(keyspace_id, file_id, groups[i].start + k),
        ));
    } else {
        assert(payload_at(runs, byte) is None) by {
            if payload_at(runs, byte) is Some {
                crate::block_chunks::lemma_payload_has_run(runs, byte);
                let k = choose|k: int| 0 <= k < runs.len() && (#[trigger] runs[k]).contains(byte);
                let i = choose|i: int|
                    0 <= i < groups.len() && (#[trigger] groups[i]).first_write <= k
                        < groups[i].last_write && groups[i].start <= runs[k].offset
                        && runs[k].end() <= groups[i].end;
                assert(group_edit_holds(
                    before,
                    middle.segments(),
                    keyspace_id,
                    file_id,
                    runs,
                    groups[i],
                    edits[i],
                ));
                lemma_byte_in_blocks(edits[i].range, bs, byte);
                assert(tree_edits[i] == receipt_edit_of(edits[i]));
                assert(tree_edits[i].range.contains(block));
            }
        }
    }
}

/// The places that a file batch writes to.
pub open spec fn file_batch_places(writes: Seq<FileBatchWrite>) -> Set<int> {
    Set::new(|place: int| file_batch_at(writes, place) is Some)
}

/// Whether a range starts at the first place of a batch and ends at its last.
pub open spec fn file_span(writes: Seq<FileBatchWrite>, range: ByteRange) -> bool {
    &&& forall|place: int| #[trigger]
        file_batch_at(writes, place) is Some ==> range.contains(place)
    &&& range.len > 0 ==> file_batch_at(writes, range.offset as int) is Some && file_batch_at(
        writes,
        range.end() - 1,
    ) is Some
}

/// The places where a run of a batch starts: nothing is written just before.
pub open spec fn file_run_starts(writes: Seq<FileBatchWrite>) -> Set<int> {
    Set::new(
        |place: int|
            file_batch_at(writes, place) is Some && file_batch_at(writes, place - 1) is None,
    )
}

/// Whether some counts are those of a batch: the places it writes to and the
/// runs that are left once later writes cover earlier ones and neighbours are
/// joined.
pub open spec fn file_batch_counted(bytes: u64, ranges: u64, writes: Seq<FileBatchWrite>) -> bool {
    &&& file_batch_places(writes).finite()
    &&& bytes == file_batch_places(writes).len()
    &&& file_run_starts(writes).finite()
    &&& ranges == file_run_starts(writes).len()
}

proof fn lemma_file_batch_counted(
    writes: Seq<FileBatchWrite>,
    payload_integrity: PayloadIntegrity,
    runs: Seq<PayloadRun>,
)
    requires
        payload_wf(runs, 1),
        runs_joined(runs),
        forall|place: int| #[trigger]
            payload_at(runs, place) == match file_batch_at(writes, place) {
                Some(value) => Some(PayloadByte { value, payload_integrity }),
                None => None,
            },
    ensures
        file_batch_places(writes).finite(),
        file_batch_places(writes).len() == total_len(runs),
        file_run_starts(writes).finite(),
        file_run_starts(writes).len() == runs.len(),
{
    lemma_run_places(runs, 1);
    lemma_payload_starts(runs, 1);
    assert(file_batch_places(writes) =~= run_places(runs)) by {
        assert forall|place: int| file_batch_places(writes).contains(place) <==> run_places(
            runs,
        ).contains(place) by {
            assert((payload_at(runs, place) is Some) == (file_batch_at(writes, place) is Some));
        }
    }
    assert(file_run_starts(writes) =~= payload_starts(runs)) by {
        assert forall|place: int| file_run_starts(writes).contains(place) <==> payload_starts(
            runs,
        ).contains(place) by {
            assert((payload_at(runs, place) is Some) == (file_batch_at(writes, place) is Some));
            assert((payload_at(runs, place - 1) is Some) == (file_batch_at(
                writes,
                place - 1,
            ) is Some));
        }
    }
}

impl LocalCoordinator {
    /// Whether a file batch cannot be committed, for one reason or another.
    pub open spec fn refuses_file_batch(
        &self,
        keyspace_id: KeyspaceId,
        file_id: FileId,
        writes: Seq<FileBatchWrite>,
    ) -> bool {
        ||| !self.metadata.has_file(keyspace_id, file_id)
        ||| !file_batch_fits(writes)
        ||| file_batch_too_large(writes)
        ||| file_batch_beyond(writes, self.file_limit(keyspace_id, file_id))
        ||| !whole_blocks(self.segments(), self.block_size())
        ||| !self.file_room(keyspace_id, file_id)
        ||| !self.room_for(self.file_limit(keyspace_id, file_id))
        ||| self.file_limit(keyspace_id, file_id) > usize::MAX
    }

    /// Whether the bytes of a batch are in new segments that are referred to and
    /// checked as a policy asks, and no run is laid over them.
    pub open spec fn file_batch_stored(
        &self,
        before: &LocalCoordinator,
        keyspace_id: KeyspaceId,
        file_id: FileId,
        writes: Seq<FileBatchWrite>,
        policy: PayloadIntegrity,
    ) -> bool {
        forall|byte: int|
            0 <= byte < self.file_limit(keyspace_id, file_id) && file_batch_at(
                writes,
                byte,
            ) is Some ==> block_put(
                before.segments(),
                self.segments(),
                before.file_block(keyspace_id, file_id, byte),
                #[trigger] self.file_block(keyspace_id, file_id, byte),
                Some(policy),
                self.block_size(),
            ) && self.file_run(keyspace_id, file_id, byte) is None
    }

    /// Writes a batch to a file in one commit.
    #[verifier::rlimit(100)]
    #[verifier::spinoff_prover]
    pub fn commit_file_batch_with_delta_and_integrity(
        &mut self,
        keyspace_id: KeyspaceId,
        file_id: FileId,
        writes: &[FileBatchWrite],
        durability: WriteDurability,
        payload_integrity: PayloadIntegrity,
    ) -> (result: Result<NativeFileCommitWithDelta, StorageError>)
        requires
            old(self).wf(),
        ensures
            final(self).only_file_changed(old(self), keyspace_id, file_id),
            final(self).metadata.catalogs_past_kept(&old(self).metadata),
            whole_blocks(old(self).segments(), old(self).block_size()) ==> whole_blocks(
                final(self).segments(),
                final(self).block_size(),
            ),
            result is Ok ==> old(self).metadata.has_file(keyspace_id, file_id) && file_batch_fits(
                writes@,
            ) && final(self).file_batch_applied(old(self), keyspace_id, file_id, writes@),
            result matches Ok(committed) ==> {
                &&& committed.commit.keyspace_id == keyspace_id
                &&& committed.commit.file_id == file_id
                &&& committed.commit.durability == durability
                &&& committed.commit.version == final(self).metadata.file_head(
                    keyspace_id,
                    file_id,
                )->0.version
                &&& committed.commit.commit_seq == final(self).metadata.file_head(
                    keyspace_id,
                    file_id,
                )->0.latest_commit
                &&& forall|place: int| #[trigger]
                    file_batch_at(writes@, place) is Some ==> committed.commit.range.contains(place)
                &&& committed.commit.range.len > 0 ==> file_batch_at(
                    writes@,
                    committed.commit.range.offset as int,
                ) is Some && file_batch_at(writes@, committed.commit.range.end() - 1) is Some
                &&& (committed.delta matches Some(delta) ==> delta.keyspace_id == keyspace_id
                    && delta.file_id == file_id && delta.commit_seq == committed.commit.commit_seq
                    && delta.base_file_version == old(self).metadata.file_head(
                    keyspace_id,
                    file_id,
                )->0.version && delta.new_file_version == committed.commit.version
                    && delta.old_size == old(self).file_size(keyspace_id, file_id)
                    && delta.new_size == final(self).file_size(keyspace_id, file_id)
                    && delta.write_count == writes@.len() && final(self).file_edited(
                    old(self),
                    keyspace_id,
                    file_id,
                    file_delta_edits(delta.entries@),
                ) && batch_grouped(
                    writes@,
                    old(self).block_size(),
                    delta.entries@.len() as int,
                ) && file_batch_counted(
                    delta.committed_bytes,
                    delta.collapsed_range_count,
                    writes@,
                ))
                &&& (committed.delta is None ==> committed.commit.range.len == 0 && *final(self)
                    == *old(self))
                &&& (committed.delta is None <==> file_batch_places(writes@) == Set::<int>::empty())
                &&& (committed.delta is Some ==> {
                    &&& committed.commit.commit_seq.0 == old(self).metadata.next_commit_seq
                    &&& committed.commit.version.0 == old(self).metadata.file_head(
                        keyspace_id,
                        file_id,
                    )->0.version.0 + 1
                    &&& final(self).metadata.append_streams@ == old(
                        self,
                    ).metadata.append_streams@.map_values(
                        |stream: LiveAppendStream| fenced(stream, keyspace_id, file_id),
                    )
                })
            },
            old(self).metadata.has_file(keyspace_id, file_id) ==> final(self).moved_within(
                old(self),
                old(self).file_limit(keyspace_id, file_id),
            ),
            !old(self).metadata.has_file(keyspace_id, file_id) ==> *final(self) == *old(self),
            result is Err ==> final(self).metadata.file_head(keyspace_id, file_id) == old(
                self,
            ).metadata.file_head(keyspace_id, file_id),
            final(self).native_file_batch_profiler == old(self).native_file_batch_profiler,
            result is Err ==> old(self).refuses_file_batch(
                keyspace_id,
                file_id,
                writes@,
            ),
            !old(self).metadata.has_file(keyspace_id, file_id) ==> (result matches Err(error)
                && error is NotFound),
            old(self).metadata.has_file(keyspace_id, file_id) && (!file_batch_fits(writes@)
                || file_batch_too_large(writes@)) ==> (result matches Err(error)
                && error is InvalidArgument) && *final(self) == *old(self),
            old(self).metadata.has_file(keyspace_id, file_id) && file_batch_fits(writes@)
                && !file_batch_too_large(writes@) && file_batch_beyond(
                writes@,
                old(self).file_limit(keyspace_id, file_id),
            ) ==> (result matches Err(error) && error is InvalidArgument)
                && *final(self) == (LocalCoordinator {
                observability: final(self).observability,
                ..*old(self)
            }) && final(self).observability.counters == counted(
                old(self).observability.counters,
                StorageEventKind::CoordinatorWriteStarted,
            ),
            result is Ok && file_batch_places(writes@) != Set::<int>::empty()
                ==> final(self).metadata.file_commit_recorded(
                &old(self).metadata,
                keyspace_id,
                old(self).metadata.file_head(keyspace_id, file_id)->0,
                final(self).metadata.file_head(keyspace_id, file_id)->0,
            ),
            result is Ok ==> final(self).file_batch_stored(
                old(self),
                keyspace_id,
                file_id,
                writes@,
                payload_integrity,
            ),
            segments_added(
                old(self).segments(),
                final(self).segments(),
                set![payload_integrity],
                old(self).block_size(),
                if result is Ok {
                    SegmentLifecycleState::Referenced
                } else {
                    SegmentLifecycleState::DurablePendingMetadata
                },
            ),
            result is Ok && file_batch_places(writes@) != Set::<int>::empty() ==> write_counted(
                old(self).observability.counters,
                final(self).observability.counters,
                true,
            ),
    {
        let ghost before = *self;
        proof {
            before.metadata.lemma_own_catalogs_past();
            before.metadata.lemma_own_records();
        }
        let bs: u64 = self.config.block_size as u64;
        let ghost limit = before.file_limit(keyspace_id, file_id);
        assert(self.metadata.files_wf(self.block_size()));
        let head = match self.metadata.get_file_head(keyspace_id, file_id) {
            Ok(head) => head,
            Err(error) => return Err(error),
        };
        proof {
            self.metadata.lemma_file_wf(keyspace_id, file_id, bs);
            assert(crate::tree::node_wf(self.nodes(), head.root.0, bs));
            let end = self.nodes()[head.root.0].covered_range.end();
            assert(limit >= 0) by (nonlinear_arith)
                requires
                    limit == end * bs,
                    end >= 0,
                    bs > 0,
            ;
        }
        let runs = match collapse_native_file_batch_writes(writes, payload_integrity) {
            Ok(runs) => runs,
            Err(error) => return Err(error),
        };
        proof {
            assert forall|place: int| (#[trigger] payload_at(runs@, place) is Some) == (
            file_batch_at(writes@, place) is Some) by {}
        }
        proof {
            lemma_file_batch_counted(writes@, payload_integrity, runs@);
            lemma_file_batch_end(writes@);
        }
        if exceeds_len(&runs, DEFAULT_NATIVE_FILE_BATCH_MAX_BYTES) {
            return Err(StorageError::invalid_argument("native file batch is too large"));
        }
        if runs.len() == 0 {
            proof {
                assert forall|place: int| #[trigger] file_batch_at(writes@, place) is None by {
                    assert(payload_at(runs@, place) is None);
                }
            }
            assert(file_batch_places(writes@) =~= Set::<int>::empty());
            assert(!file_batch_beyond(writes@, limit));
            return Ok(
                NativeFileCommitWithDelta {
                    commit: FileWriteCommit {
                        keyspace_id,
                        file_id,
                        range: ByteRange { offset: head.size, len: 0 },
                        version: head.version,
                        commit_seq: head.latest_commit,
                        durability,
                    },
                    delta: None,
                },
            );
        }
        self.record_event(StorageEventKind::CoordinatorWriteStarted, None, None, None);
        let last: usize = runs.len() - 1;
        assert(runs@[last as int].end() <= u64::MAX);
        let first_byte: u64 = runs[0].offset;
        let end_byte: u64 = runs[last].offset + runs[last].bytes.len() as u64;
        proof {
            lemma_batch_span(runs@, writes@);
        }
        let range = ByteRange { offset: first_byte, len: end_byte - first_byte };
        let new_size: u64 = if end_byte > head.size {
            end_byte
        } else {
            head.size
        };
        let covered = match self.metadata.trees.nodes.get(head.root.raw()) {
            Some(node) => node.covered_range,
            None => return Err(StorageError::not_found("metadata_node", head.root.raw())),
        };
        proof {
            assert(covered.end() <= u64::MAX) by (nonlinear_arith)
                requires
                    covered.end() * bs <= u64::MAX,
                    bs >= 1,
                    covered.end() >= 0,
            ;
            vstd::arithmetic::div_mod::lemma_mod_multiples_basic(covered.end(), bs as int);
            assert(file_batch_at(writes@, end_byte - 1) is Some);
            assert(file_batch_end(writes@) == end_byte) by {
                assert(file_batch_at(writes@, file_batch_end(writes@) - 1) is Some);
            }
        }
        if end_byte > (covered.start.0 + covered.blocks.0) * bs {
            return Err(
                StorageError::invalid_argument("native file batch exceeds file root coverage"),
            );
        }
        proof {
            assert forall|place: int| #[trigger] file_batch_at(writes@, place) is Some implies place
                < limit by {}
            assert(!file_batch_beyond(writes@, limit));
        }
        let groups = match native_batch_segment_groups(&runs, bs) {
            Ok(groups) => groups,
            Err(error) => {
                proof {
                    let k = choose|k: int|
                        0 <= k < runs@.len() && crate::file_groups::rounds_past_end(
                            #[trigger] runs@[k],
                            bs,
                        );
                    lemma_run_beyond(runs@, writes@, k, limit, bs);
                }
                return Err(error);
            },
        };
        assert(groups@.len() == groups.len());
        let written = self.write_group_segments(
            keyspace_id,
            file_id,
            head,
            covered,
            &runs,
            &groups,
            durability,
            payload_integrity,
        );
        let ghost middle = *self;
        proof {
            reveal(pending_added);
            reveal(receipts_name_new);
            assert(middle.metadata.file_head(keyspace_id, file_id) == Some(head));
        }
        let edits = match written {
            Ok(edits) => edits,
            Err(error) => {
                proof {
                    if exists|i: int|
                        0 <= i < groups@.len() && (#[trigger] groups@[i]).end > limit {
                        let i = choose|i: int|
                            0 <= i < groups@.len() && (#[trigger] groups@[i]).end > limit;
                        lemma_group_beyond(runs@, writes@, groups@, i, limit, bs);
                    }
                }
                return Err(error);
            },
        };
        proof {
            lemma_group_edits(
                before,
                middle,
                keyspace_id,
                file_id,
                runs@,
                groups@,
                edits@,
                covered,
            );
            assert(groups@.len() > 0);
            let k = runs@.len() - 1;
            let i = choose|i: int|
                0 <= i < groups@.len() && (#[trigger] groups@[i]).first_write <= k
                    < groups@[i].last_write && groups@[i].start <= runs@[k].offset
                    && runs@[k].end() <= groups@[i].end;
            assert(runs@[k].offset >= groups@[i].start);
            assert(group_edit_holds(
                before,
                middle.segments(),
                keyspace_id,
                file_id,
                runs@,
                groups@[i],
                edits@[i],
            ));
            lemma_mul_le(edits@[i].range.end(), covered.end(), bs as int);
            assert(end_byte <= limit);
        }
        let committed_bytes = total_len_of(&runs);
        let publish = NativeFileReceiptPublish {
            keyspace_id,
            file_id,
            base_version: head.version,
            committed_range: range,
            new_size,
            edits,
            durability,
        };
        let ghost published_edits = publish.edits@;
        assert(middle.takes_file_edits(
            keyspace_id,
            file_id,
            head.version,
            new_size,
            published_edits,
        ));
        let result = self.publish_native_file_receipt_edits_with_delta(
            publish,
            writes.len() as u64,
            runs.len() as u64,
            committed_bytes,
        );
        proof {
            assert forall|k: KeyspaceId, f: FileId|
                (k != keyspace_id || f != file_id) && before.metadata.has_keyspace(
                    k,
                ) implies #[trigger] self.metadata.file_head(k, f) == before.metadata.file_head(
                k,
                f,
            ) by {
                assert(middle.metadata.has_keyspace(k));
                assert(self.metadata.file_head(k, f) == middle.metadata.file_head(k, f));
            }
            assert forall|id: u128| whole_blocks(before.segments(), bs)
                && #[trigger] self.segments().contains_key(id) implies self.segments()[id].bytes@.len()
                as int % bs as int == 0 by {
                assert(middle.segments().contains_key(id));
            }
            assert(file_batch_places(writes@).contains(first_byte as int)) by {
                lemma_payload_run(runs@, 1, 0, first_byte as int);
                assert(payload_at(runs@, first_byte as int) is Some);
            }
            if result is Ok {
                assert forall|byte: int|
                    0 <= byte < before.file_limit(keyspace_id, file_id) implies #[trigger]
                    self.file_byte(keyspace_id, file_id, byte) == self.edited_file_byte(
                    receipt_edits(published_edits),
                    byte,
                    before.file_byte(keyspace_id, file_id, byte),
                ) by {
                    lemma_tree_byte_kept(before, middle, head.root, byte);
                    assert(self.file_byte(keyspace_id, file_id, byte) == self.edited_file_byte(
                        receipt_edits(published_edits),
                        byte,
                        middle.file_byte(keyspace_id, file_id, byte),
                    ));
                }
                assert(file_batch_counted(committed_bytes, runs@.len() as u64, writes@));
                assert(groups_take(groups@, runs@, bs, runs@.len() as int));
                assert(result->Ok_0.delta->0.entries@.len() == published_edits.len()) by {
                    assert(file_delta_edits(result->Ok_0.delta->0.entries@).len()
                        == receipt_edits(published_edits).len());
                }
                assert(batch_grouped(writes@, bs, groups@.len() as int));
                lemma_batch_applied(
                    before,
                    middle,
                    *self,
                    keyspace_id,
                    file_id,
                    writes@,
                    payload_integrity,
                    runs@,
                    groups@,
                    published_edits,
                    new_size,
                );
                lemma_places_kept(
                    before,
                    middle,
                    *self,
                    *self,
                    keyspace_id,
                    file_id,
                    receipt_edits(published_edits),
                );
                lemma_added_marked(
                    before.segments(),
                    middle.segments(),
                    self.segments(),
                    receipts_of(published_edits),
                    set![payload_integrity],
                    bs,
                );
                lemma_file_batch_stored(
                    before,
                    middle,
                    *self,
                    keyspace_id,
                    file_id,
                    writes@,
                    payload_integrity,
                    runs@,
                    groups@,
                    published_edits,
                );
            }
        }
        result
    }

    /// Writes a batch to a file with checksums.
    pub fn commit_file_batch(
        &mut self,
        keyspace_id: KeyspaceId,
        file_id: FileId,
        writes: &[FileBatchWrite],
        durability: WriteDurability,
    ) -> (result: Result<FileWriteCommit, StorageError>)
        requires
            old(self).wf(),
        ensures
            final(self).only_file_changed(old(self), keyspace_id, file_id),
            final(self).metadata.catalogs_past_kept(&old(self).metadata),
            whole_blocks(old(self).segments(), old(self).block_size()) ==> whole_blocks(
                final(self).segments(),
                final(self).block_size(),
            ),
            result is Ok ==> old(self).metadata.has_file(keyspace_id, file_id) && file_batch_fits(
                writes@,
            ) && final(self).file_batch_applied(old(self), keyspace_id, file_id, writes@),
            result matches Ok(commit) ==> commit.keyspace_id == keyspace_id && commit.file_id
                == file_id && commit.durability == durability && commit.version
                == final(self).metadata.file_head(keyspace_id, file_id)->0.version
                && commit.commit_seq == final(self).metadata.file_head(
                keyspace_id,
                file_id,
            )->0.latest_commit,
            result matches Ok(commit) ==> if file_batch_places(writes@) == Set::<int>::empty() {
                commit.range.len == 0 && *final(self) == (LocalCoordinator {
                    native_file_batch_profiler: final(self).native_file_batch_profiler,
                    ..*old(self)
                })
            } else {
                &&& file_span(writes@, commit.range)
                &&& commit.commit_seq.0 == old(self).metadata.next_commit_seq
                &&& commit.version.0 == old(self).metadata.file_head(
                    keyspace_id,
                    file_id,
                )->0.version.0 + 1
                &&& final(self).metadata.append_streams@ == old(
                    self,
                ).metadata.append_streams@.map_values(
                    |stream: LiveAppendStream| fenced(stream, keyspace_id, file_id),
                )
            },
            old(self).metadata.has_file(keyspace_id, file_id) ==> final(self).moved_within(
                old(self),
                old(self).file_limit(keyspace_id, file_id),
            ),
            !old(self).metadata.has_file(keyspace_id, file_id) ==> *final(self) == *old(self),
            result is Err ==> final(self).metadata.file_head(keyspace_id, file_id) == old(
                self,
            ).metadata.file_head(keyspace_id, file_id),
            !old(self).metadata.has_file(keyspace_id, file_id) ==> (result matches Err(error)
                && error is NotFound),
            old(self).metadata.has_file(keyspace_id, file_id) && (!file_batch_fits(writes@)
                || file_batch_too_large(writes@)) ==> (result matches Err(error)
                && error is InvalidArgument) && *final(self) == *old(self),
            old(self).metadata.has_file(keyspace_id, file_id) && file_batch_fits(writes@)
                && !file_batch_too_large(writes@) && file_batch_beyond(
                writes@,
                old(self).file_limit(keyspace_id, file_id),
            ) ==> (result matches Err(error) && error is InvalidArgument)
                && *final(self) == (LocalCoordinator {
                observability: final(self).observability,
                ..*old(self)
            }) && final(self).observability.counters == counted(
                old(self).observability.counters,
                StorageEventKind::CoordinatorWriteStarted,
            ),
            result is Ok ==> final(self).file_batch_profiled(old(self), writes@),
            result is Err ==> final(self).native_file_batch_profiler == old(
                self,
            ).native_file_batch_profiler,
            result is Err ==> old(self).refuses_file_batch(
                keyspace_id,
                file_id,
                writes@,
            ),
            result is Ok && file_batch_places(writes@) != Set::<int>::empty()
                ==> final(self).metadata.file_commit_recorded(
                &old(self).metadata,
                keyspace_id,
                old(self).metadata.file_head(keyspace_id, file_id)->0,
                final(self).metadata.file_head(keyspace_id, file_id)->0,
            ),
            result is Ok ==> final(self).file_batch_stored(
                old(self),
                keyspace_id,
                file_id,
                writes@,
                PayloadIntegrity::Verified,
            ),
            segments_added(
                old(self).segments(),
                final(self).segments(),
                set![PayloadIntegrity::Verified],
                old(self).block_size(),
                if result is Ok {
                    SegmentLifecycleState::Referenced
                } else {
                    SegmentLifecycleState::DurablePendingMetadata
                },
            ),
            result is Ok && file_batch_places(writes@) != Set::<int>::empty() ==> write_counted(
                old(self).observability.counters,
                final(self).observability.counters,
                true,
            ),
    {
        self.commit_file_batch_with_integrity(
            keyspace_id,
            file_id,
            writes,
            durability,
            PayloadIntegrity::Verified,
        )
    }

    #[verifier::rlimit(60)]
    #[verifier::spinoff_prover]
    pub fn commit_file_batch_with_integrity(
        &mut self,
        keyspace_id: KeyspaceId,
        file_id: FileId,
        writes: &[FileBatchWrite],
        durability: WriteDurability,
        payload_integrity: PayloadIntegrity,
    ) -> (result: Result<FileWriteCommit, StorageError>)
        requires
            old(self).wf(),
        ensures
            final(self).only_file_changed(old(self), keyspace_id, file_id),
            final(self).metadata.catalogs_past_kept(&old(self).metadata),
            whole_blocks(old(self).segments(), old(self).block_size()) ==> whole_blocks(
                final(self).segments(),
                final(self).block_size(),
            ),
            result is Ok ==> old(self).metadata.has_file(keyspace_id, file_id) && file_batch_fits(
                writes@,
            ) && final(self).file_batch_applied(old(self), keyspace_id, file_id, writes@),
            result matches Ok(commit) ==> commit.keyspace_id == keyspace_id && commit.file_id
                == file_id && commit.durability == durability && commit.version
                == final(self).metadata.file_head(keyspace_id, file_id)->0.version
                && commit.commit_seq == final(self).metadata.file_head(
                keyspace_id,
                file_id,
            )->0.latest_commit,
            result matches Ok(commit) ==> if file_batch_places(writes@) == Set::<int>::empty() {
                commit.range.len == 0 && *final(self) == (LocalCoordinator {
                    native_file_batch_profiler: final(self).native_file_batch_profiler,
                    ..*old(self)
                })
            } else {
                &&& file_span(writes@, commit.range)
                &&& commit.commit_seq.0 == old(self).metadata.next_commit_seq
                &&& commit.version.0 == old(self).metadata.file_head(
                    keyspace_id,
                    file_id,
                )->0.version.0 + 1
                &&& final(self).metadata.append_streams@ == old(
                    self,
                ).metadata.append_streams@.map_values(
                    |stream: LiveAppendStream| fenced(stream, keyspace_id, file_id),
                )
            },
            old(self).metadata.has_file(keyspace_id, file_id) ==> final(self).moved_within(
                old(self),
                old(self).file_limit(keyspace_id, file_id),
            ),
            !old(self).metadata.has_file(keyspace_id, file_id) ==> *final(self) == *old(self),
            result is Err ==> final(self).metadata.file_head(keyspace_id, file_id) == old(
                self,
            ).metadata.file_head(keyspace_id, file_id),
            !old(self).metadata.has_file(keyspace_id, file_id) ==> (result matches Err(error)
                && error is NotFound),
            old(self).metadata.has_file(keyspace_id, file_id) && (!file_batch_fits(writes@)
                || file_batch_too_large(writes@)) ==> (result matches Err(error)
                && error is InvalidArgument) && *final(self) == *old(self),
            old(self).metadata.has_file(keyspace_id, file_id) && file_batch_fits(writes@)
                && !file_batch_too_large(writes@) && file_batch_beyond(
                writes@,
                old(self).file_limit(keyspace_id, file_id),
            ) ==> (result matches Err(error) && error is InvalidArgument)
                && *final(self) == (LocalCoordinator {
                observability: final(self).observability,
                ..*old(self)
            }) && final(self).observability.counters == counted(
                old(self).observability.counters,
                StorageEventKind::CoordinatorWriteStarted,
            ),
            result is Ok ==> final(self).file_batch_profiled(old(self), writes@),
            result is Err ==> final(self).native_file_batch_profiler == old(
                self,
            ).native_file_batch_profiler,
            result is Err ==> old(self).refuses_file_batch(
                keyspace_id,
                file_id,
                writes@,
            ),
            result is Ok && file_batch_places(writes@) != Set::<int>::empty()
                ==> final(self).metadata.file_commit_recorded(
                &old(self).metadata,
                keyspace_id,
                old(self).metadata.file_head(keyspace_id, file_id)->0,
                final(self).metadata.file_head(keyspace_id, file_id)->0,
            ),
            result is Ok ==> final(self).file_batch_stored(
                old(self),
                keyspace_id,
                file_id,
                writes@,
                payload_integrity,
            ),
            segments_added(
                old(self).segments(),
                final(self).segments(),
                set![payload_integrity],
                old(self).block_size(),
                if result is Ok {
                    SegmentLifecycleState::Referenced
                } else {
                    SegmentLifecycleState::DurablePendingMetadata
                },
            ),
            result is Ok && file_batch_places(writes@) != Set::<int>::empty() ==> write_counted(
                old(self).observability.counters,
                final(self).observability.counters,
                true,
            ),
    {
        let ghost before = *self;
        match self.commit_file_batch_with_delta_and_integrity(
            keyspace_id,
            file_id,
            writes,
            durability,
            payload_integrity,
        ) {
            Ok(committed) => {
                let ghost middle = *self;
                let (ranges, bytes, groups): (u64, u64, u64) = match &committed.delta {
                    Some(delta) => (
                        delta.collapsed_range_count,
                        delta.committed_bytes,
                        delta.entries.len() as u64,
                    ),
                    None => (0, 0, 0),
                };
                let profile = NativeFileBatchCommitProfile {
                    total_nanos: 0,
                    metadata_head_nanos: 0,
                    collapse_nanos: 0,
                    segment_write_nanos: 0,
                    tree_path_copy_nanos: 0,
                    metadata_publish_nanos: 0,
                    write_count: writes.len() as u64,
                    collapsed_range_count: ranges,
                    requested_bytes: requested_bytes(writes),
                    committed_bytes: bytes,
                    committed_range_bytes: committed.commit.range.len,
                    segment_group_count: groups,
                    segment_count: groups,
                };
                self.record_native_file_batch_profile(profile);
                proof {
                    if committed.delta is None {
                        lemma_no_places(writes@);
                        lemma_no_groups(writes@, before.block_size());
                    }
                    assert(file_span(writes@, committed.commit.range));
                    assert(profile_counts(profile, writes@, before.block_size()));
                    lemma_applied_alike(before, middle, *self, keyspace_id, file_id, writes@);
                    assert forall|byte: int| #[trigger] self.file_block(
                        keyspace_id,
                        file_id,
                        byte,
                    ) == middle.file_block(keyspace_id, file_id, byte) && self.file_run(
                        keyspace_id,
                        file_id,
                        byte,
                    ) == middle.file_run(keyspace_id, file_id, byte) by {}
                    assert(self.file_batch_stored(
                        &before,
                        keyspace_id,
                        file_id,
                        writes@,
                        payload_integrity,
                    ));
                }
                Ok(committed.commit)
            },
            Err(error) => Err(error),
        }
    }
}

/// Where the bytes of a batch are after it was published.
#[verifier::rlimit(40)]
proof fn lemma_file_batch_stored(
    before: LocalCoordinator,
    middle: LocalCoordinator,
    after: LocalCoordinator,
    keyspace_id: KeyspaceId,
    file_id: FileId,
    writes: Seq<FileBatchWrite>,
    payload_integrity: PayloadIntegrity,
    runs: Seq<PayloadRun>,
    groups: Seq<NativeSegmentGroup>,
    edits: Seq<NativeFileReceiptEdit>,
)
    requires
        before.wf(),
        before.block_size() > 0,
        middle.same_metadata(&before),
        after.config == before.config,
        after.file_edited(&middle, keyspace_id, file_id, receipt_edits(edits)),
        payload_wf(runs, 1),
        forall|place: int| (#[trigger] payload_at(runs, place) is Some) == (file_batch_at(
            writes,
            place,
        ) is Some),
        groups_take(groups, runs, before.block_size(), runs.len() as int),
        edits.len() == groups.len(),
        forall|i: int|
            0 <= i < edits.len() ==> group_edit_holds(
                before,
                middle.segments(),
                keyspace_id,
                file_id,
                runs,
                groups[i],
                #[trigger] edits[i],
            ),
        names_new(before.segments(), middle.segments(), receipts_of(edits)),
        segments_added(
            before.segments(),
            after.segments(),
            set![payload_integrity],
            before.block_size(),
            SegmentLifecycleState::Referenced,
        ),
        segments_marked(middle.segments(), after.segments(), receipts_of(edits)),
    ensures
        after.file_batch_stored(&before, keyspace_id, file_id, writes, payload_integrity),
{
    let bs = before.block_size();
    let tree_edits = receipt_edits(edits);
    assert(after.file_limit(keyspace_id, file_id) == middle.file_limit(keyspace_id, file_id));
    assert forall|byte: int|
        0 <= byte < after.file_limit(keyspace_id, file_id) && file_batch_at(
            writes,
            byte,
        ) is Some implies block_put(
        before.segments(),
        after.segments(),
        before.file_block(keyspace_id, file_id, byte),
        #[trigger] after.file_block(keyspace_id, file_id, byte),
        Some(payload_integrity),
        bs,
    ) && after.file_run(keyspace_id, file_id, byte) is None by {
        assert(payload_at(runs, byte) is Some);
        crate::block_chunks::lemma_payload_has_run(runs, byte);
        let k = choose|k: int| 0 <= k < runs.len() && (#[trigger] runs[k]).contains(byte);
        let i = choose|i: int|
            0 <= i < groups.len() && (#[trigger] groups[i]).first_write <= k < groups[i].last_write
                && groups[i].start <= runs[k].offset && runs[k].end() <= groups[i].end;
        let edit = edits[i];
        assert(group_edit_holds(
            before,
            middle.segments(),
            keyspace_id,
            file_id,
            runs,
            groups[i],
            edit,
        ));
        let block = byte / bs as int;
        lemma_in_blocks(edit.range, bs, byte);
        assert(tree_edits[i] == receipt_edit_of(edit));
        assert(tree_edits[i].range.contains(block));
        assert(is_edited(tree_edits, block));
        assert(edit_outcome(
            tree_edits,
            block,
            middle.file_block(keyspace_id, file_id, byte),
            after.file_block(keyspace_id, file_id, byte),
        ));
        assert(after.file_block(keyspace_id, file_id, byte) == tree_edits[i].value_at(block));
        let id = edit.receipt.segment_id.0;
        assert(receipts_of(edits)[i] == edit.receipt);
        assert(!before.segments().contains_key(receipts_of(edits)[i].segment_id.0));
        assert(after.segments().dom().contains(id));
        assert(stored_by(
            after.segments(),
            id,
            set![payload_integrity],
            bs,
            SegmentLifecycleState::Referenced,
        ));
    }
}

/// A byte between the ends of some blocks lies in one of them.
proof fn lemma_in_blocks(range: BlockRange, block_size: u64, byte: int)
    requires
        block_size > 0,
        range.start.0 * block_size <= byte < range.end() * block_size,
    ensures
        range.contains(byte / block_size as int),
{
    let b = block_size as int;
    vstd::arithmetic::div_mod::lemma_fundamental_div_mod(byte, b);
    let q = byte / b;
    let (low, high) = (range.start.0 as int, range.end());
    assert(low <= q && q < high) by (nonlinear_arith)
        requires
            byte == b * q + byte % b,
            0 <= byte % b < b,
            low * b <= byte < high * b,
            b > 0,
    ;
}

/// The bytes that a batch asks to be written, those that it covers again
/// counted again.
pub open spec fn requested_len(writes: Seq<FileBatchWrite>) -> int
    decreases writes.len(),
{
    if writes.len() == 0 {
        0
    } else {
        requested_len(writes.drop_last()) + writes.last().bytes@.len()
    }
}

fn requested_bytes(writes: &[FileBatchWrite]) -> (total: u64)
    ensures
        total == if requested_len(writes@) > u64::MAX {
            u64::MAX as int
        } else {
            requested_len(writes@)
        },
{
    let mut total: u64 = 0;
    let mut next: usize = 0;
    assert(writes@.take(0) =~= Seq::<FileBatchWrite>::empty());
    while next < writes.len()
        invariant
            next <= writes@.len(),
            total == if requested_len(writes@.take(next as int)) > u64::MAX {
                u64::MAX as int
            } else {
                requested_len(writes@.take(next as int))
            },
        decreases writes@.len() - next,
    {
        assert(writes@.take(next + 1).drop_last() =~= writes@.take(next as int));
        total = total.saturating_add(writes[next].bytes.len() as u64);
        next = next + 1;
    }
    assert(writes@.take(next as int) =~= writes@);
    total
}

/// Whether a profile has the counts of a batch; no time is measured.
pub open spec fn profile_counts(
    profile: NativeFileBatchCommitProfile,
    writes: Seq<FileBatchWrite>,
    block_size: u64,
) -> bool {
    &&& profile.total_nanos == 0
    &&& profile.metadata_head_nanos == 0
    &&& profile.collapse_nanos == 0
    &&& profile.segment_write_nanos == 0
    &&& profile.tree_path_copy_nanos == 0
    &&& profile.metadata_publish_nanos == 0
    &&& profile.write_count == writes.len()
    &&& profile.requested_bytes == if requested_len(writes) > u64::MAX {
        u64::MAX as int
    } else {
        requested_len(writes)
    }
    &&& file_batch_counted(profile.committed_bytes, profile.collapsed_range_count, writes)
    &&& exists|range: ByteRange| #[trigger]
        file_span(writes, range) && profile.committed_range_bytes == range.len
    &&& batch_grouped(writes, block_size, profile.segment_group_count as int)
    &&& profile.segment_count == profile.segment_group_count
}

/// Whether a batch is stored as so many groups of blocks, each one segment.
pub open spec fn batch_grouped(writes: Seq<FileBatchWrite>, block_size: u64, count: int) -> bool {
    exists|runs: Seq<PayloadRun>, groups: Seq<NativeSegmentGroup>|
        payload_wf(runs, 1) && runs_joined(runs) && (forall|place: int|
            (#[trigger] payload_at(runs, place) is Some) == (file_batch_at(
                writes,
                place,
            ) is Some)) && #[trigger] groups_take(groups, runs, block_size, runs.len() as int)
            && groups.len() == count
}

/// A batch without bytes is stored as no segment.
proof fn lemma_no_groups(writes: Seq<FileBatchWrite>, block_size: u64)
    requires
        file_batch_places(writes) == Set::<int>::empty(),
    ensures
        batch_grouped(writes, block_size, 0),
{
    let runs = Seq::<PayloadRun>::empty();
    let groups = Seq::<NativeSegmentGroup>::empty();
    assert forall|place: int| (#[trigger] payload_at(runs, place) is Some) == (file_batch_at(
        writes,
        place,
    ) is Some) by {
        assert(!file_batch_places(writes).contains(place));
    }
    assert(groups_take(groups, runs, block_size, runs.len() as int));
}

/// What a batch did does not rest on the profiles that are kept.
proof fn lemma_applied_alike(
    before: LocalCoordinator,
    middle: LocalCoordinator,
    after: LocalCoordinator,
    keyspace_id: KeyspaceId,
    file_id: FileId,
    writes: Seq<FileBatchWrite>,
)
    requires
        middle.file_batch_applied(&before, keyspace_id, file_id, writes),
        after.metadata == middle.metadata,
        after.storage_nodes == middle.storage_nodes,
        after.append_run_logs == middle.append_run_logs,
        after.config == middle.config,
    ensures
        after.file_batch_applied(&before, keyspace_id, file_id, writes),
{
    assert forall|byte: int| #[trigger] after.file_byte(keyspace_id, file_id, byte)
        == middle.file_byte(keyspace_id, file_id, byte) by {}
    assert(after.file_limit(keyspace_id, file_id) == middle.file_limit(keyspace_id, file_id));
    assert(after.file_size(keyspace_id, file_id) == middle.file_size(keyspace_id, file_id));
    assert(!file_batch_beyond(writes, middle.file_limit(keyspace_id, file_id)));
    if before.clean_tail(keyspace_id, file_id) {
        assert(middle.clean_tail(keyspace_id, file_id));
        assert(after.clean_tail(keyspace_id, file_id));
    }
    assert forall|byte: int| 0 <= byte < after.file_limit(keyspace_id, file_id) implies byte_applied(
        #[trigger] after.file_byte(keyspace_id, file_id, byte),
        before.file_byte(keyspace_id, file_id, byte),
        file_batch_at(writes, byte),
        byte < after.file_size(keyspace_id, file_id),
        byte < before.file_size(keyspace_id, file_id),
        before.clean_tail(keyspace_id, file_id),
    ) by {
        assert(after.file_byte(keyspace_id, file_id, byte) == middle.file_byte(
            keyspace_id,
            file_id,
            byte,
        ));
    }
}

/// A batch without bytes leaves no run.
proof fn lemma_no_places(writes: Seq<FileBatchWrite>)
    requires
        file_batch_places(writes) == Set::<int>::empty(),
    ensures
        file_batch_counted(0, 0, writes),
{
    assert forall|place: int| !file_run_starts(writes).contains(place) by {
        assert(!file_batch_places(writes).contains(place));
    }
    assert(file_run_starts(writes) =~= Set::<int>::empty());
}

impl LocalCoordinator {
    /// Whether a batch left one profile, if profiles are kept.
    pub open spec fn file_batch_profiled(
        &self,
        before: &LocalCoordinator,
        writes: Seq<FileBatchWrite>,
    ) -> bool {
        match before.native_file_batch_profiler {
            None => self.native_file_batch_profiler is None,
            Some(log) => self.native_file_batch_profiler matches Some(after) && after.capacity
                == log.capacity && exists|profile: NativeFileBatchCommitProfile| #[trigger]
                profile_counts(profile, writes, self.block_size()) && after.items@ == ring_push(
                    log.items@,
                    log.capacity as int,
                    profile,
                ),
        }
    }
}

/// Whether runs are longer than a limit in all.
fn exceeds_len(runs: &Vec<PayloadRun>, limit: u64) -> (exceeds: bool)
    ensures
        exceeds == (total_len(runs@) > limit),
{
    let mut total: u64 = 0;
    let mut i: usize = 0;
    assert(runs@.take(0) =~= Seq::<PayloadRun>::empty());
    while i < runs.len()
        invariant
            i <= runs@.len(),
            total == total_len(runs@.take(i as int)),
            total <= limit,
        decreases runs@.len() - i,
    {
        proof {
            assert(runs@.take(i + 1).drop_last() =~= runs@.take(i as int));
            crate::block_commit::lemma_total_len_prefix(runs@, i + 1);
        }
        let len: u64 = runs[i].bytes.len() as u64;
        if len > limit - total {
            return true;
        }
        total = total + len;
        i = i + 1;
    }
    assert(runs@.take(i as int) =~= runs@);
    false
}

proof fn lemma_batch_span(runs: Seq<PayloadRun>, writes: Seq<FileBatchWrite>)
    requires
        payload_wf(runs, 1),
        runs.len() > 0,
        forall|place: int| (#[trigger] payload_at(runs, place) is Some) == (file_batch_at(
            writes,
            place,
        ) is Some),
    ensures
        runs[0].offset < runs.last().end(),
        forall|place: int| #[trigger]
            file_batch_at(writes, place) is Some ==> runs[0].offset <= place < runs.last().end(),
        file_batch_at(writes, runs[0].offset as int) is Some,
        file_batch_at(writes, runs.last().end() - 1) is Some,
{
    let last = runs.len() - 1;
    assert(runs[0].bytes@.len() > 0);
    assert(runs[last].bytes@.len() > 0);
    if last > 0 {
        assert(runs[0].end() <= runs[last].offset);
    }
    assert forall|place: int| #[trigger] file_batch_at(writes, place) is Some implies runs[0].offset
        <= place < runs.last().end() by {
        assert(payload_at(runs, place) is Some);
        crate::block_chunks::lemma_payload_has_run(runs, place);
        let k = choose|k: int| 0 <= k < runs.len() && (#[trigger] runs[k]).contains(place);
        if k > 0 {
            assert(runs[0].end() <= runs[k].offset);
        }
        if k < last {
            assert(runs[k].end() <= runs[last].offset);
        }
    }
    assert(runs[0].contains(runs[0].offset as int));
    crate::batch::lemma_payload_run(runs, 1, 0, runs[0].offset as int);
    assert(payload_at(runs, runs[0].offset as int) is Some);
    assert(runs[last].contains(runs[last].end() - 1));
    crate::batch::lemma_payload_run(runs, 1, last, runs[last].end() - 1);
    assert(payload_at(runs, runs[last].end() - 1) is Some);
}

proof fn lemma_run_beyond(
    runs: Seq<PayloadRun>,
    writes: Seq<FileBatchWrite>,
    k: int,
    limit: int,
    block_size: u64,
)
    requires
        payload_wf(runs, 1),
        0 <= k < runs.len(),
        block_size > 0,
        0 <= limit <= u64::MAX,
        limit % block_size as int == 0,
        crate::file_groups::rounds_past_end(runs[k], block_size),
        forall|place: int| (#[trigger] payload_at(runs, place) is Some) == (file_batch_at(
            writes,
            place,
        ) is Some),
    ensures
        file_batch_beyond(writes, limit),
{
    let b = block_size as int;
    let e = runs[k].end();
    vstd::arithmetic::div_mod::lemma_fundamental_div_mod(e, b);
    vstd::arithmetic::div_mod::lemma_fundamental_div_mod(limit, b);
    let (q, m) = (e / b, limit / b);
    assert(e > limit) by (nonlinear_arith)
        requires
            e == b * q + e % b,
            0 < e % b < b,
            limit == b * m,
            q * b + b > u64::MAX,
            limit <= u64::MAX,
            b > 0,
    ;
    assert(runs[k].bytes@.len() > 0);
    assert(runs[k].contains(e - 1));
    crate::batch::lemma_payload_run(runs, 1, k, e - 1);
    assert(payload_at(runs, e - 1) is Some);
    assert(file_batch_at(writes, e - 1) is Some);
}

proof fn lemma_group_beyond(
    runs: Seq<PayloadRun>,
    writes: Seq<FileBatchWrite>,
    groups: Seq<NativeSegmentGroup>,
    i: int,
    limit: int,
    block_size: u64,
)
    requires
        payload_wf(runs, 1),
        groups_take(groups, runs, block_size, runs.len() as int),
        0 <= i < groups.len(),
        groups[i].end > limit,
        limit >= 0,
        limit % block_size as int == 0,
        block_size > 0,
        forall|place: int| (#[trigger] payload_at(runs, place) is Some) == (file_batch_at(
            writes,
            place,
        ) is Some),
    ensures
        file_batch_beyond(writes, limit),
{
    let group = groups[i];
    assert(group.wf(runs, block_size));
    let k = group.end_run(runs, block_size);
    assert(runs[k].contains(runs[k].end() - 1));
    crate::batch::lemma_payload_run(runs, 1, k, runs[k].end() - 1);
    let b = block_size as int;
    let e = runs[k].end();
    vstd::arithmetic::div_mod::lemma_fundamental_div_mod(limit, b);
    vstd::arithmetic::div_mod::lemma_fundamental_div_mod(group.end as int, b);
    let (q, m) = (group.end as int / b, limit / b);
    assert(e > limit) by (nonlinear_arith)
        requires
            group.end == b * q,
            limit == b * m,
            group.end > limit,
            e > group.end - b,
            b > 0,
    ;
    assert(payload_at(runs, e - 1) is Some);
    assert(file_batch_at(writes, e - 1) is Some);
}

proof fn lemma_batch_applied(
    before: LocalCoordinator,
    middle: LocalCoordinator,
    after: LocalCoordinator,
    keyspace_id: KeyspaceId,
    file_id: FileId,
    writes: Seq<FileBatchWrite>,
    payload_integrity: PayloadIntegrity,
    runs: Seq<PayloadRun>,
    groups: Seq<NativeSegmentGroup>,
    edits: Seq<NativeFileReceiptEdit>,
    new_size: u64,
)
    requires
        before.wf(),
        before.metadata.has_file(keyspace_id, file_id),
        middle.same_metadata(&before),
        keeps_segments(before.segments(), middle.segments()),
        keeps_segments(middle.segments(), after.segments()),
        after.config == before.config,
        after.file_edited(&middle, keyspace_id, file_id, receipt_edits(edits)),
        after.file_size(keyspace_id, file_id) == new_size,
        payload_wf(runs, 1),
        runs.len() > 0,
        forall|place: int| #[trigger]
            payload_at(runs, place) == match file_batch_at(writes, place) {
                Some(value) => Some(PayloadByte { value, payload_integrity }),
                None => None,
            },
        groups_take(groups, runs, before.block_size(), runs.len() as int),
        edits.len() == groups.len(),
        forall|i: int|
            0 <= i < edits.len() ==> group_edit_holds(
                before,
                middle.segments(),
                keyspace_id,
                file_id,
                runs,
                groups[i],
                #[trigger] edits[i],
            ),
        new_size == if runs.last().end() > before.file_size(keyspace_id, file_id) {
            runs.last().end()
        } else {
            before.file_size(keyspace_id, file_id)
        },
        runs.last().end() <= before.file_limit(keyspace_id, file_id),
    ensures
        after.file_batch_applied(&before, keyspace_id, file_id, writes),
{
    let size = before.file_size(keyspace_id, file_id);
    let limit = before.file_limit(keyspace_id, file_id);
    assert(middle.file_limit(keyspace_id, file_id) == limit);
    assert forall|place: int| (#[trigger] payload_at(runs, place) is Some) == (file_batch_at(
        writes,
        place,
    ) is Some) by {}
    lemma_batch_span(runs, writes);
    lemma_file_batch_end(writes);
    assert(file_batch_at(writes, file_batch_end(writes) - 1) is Some);
    assert(file_batch_end(writes) == runs.last().end());
    assert forall|byte: int| 0 <= byte < limit implies (match file_batch_at(writes, byte) {
        Some(value) => #[trigger] after.file_byte(keyspace_id, file_id, byte) == value && byte
            < after.file_size(keyspace_id, file_id),
        None => if byte < size {
            after.file_byte(keyspace_id, file_id, byte) == before.file_byte(
                keyspace_id,
                file_id,
                byte,
            )
        } else {
            before.clean_tail(keyspace_id, file_id) ==> after.file_byte(
                keyspace_id,
                file_id,
                byte,
            ) == 0
        },
    }) by {
        lemma_file_batch_byte(
            before,
            middle,
            after,
            keyspace_id,
            file_id,
            runs,
            groups,
            edits,
            byte,
        );
        assert(payload_at(runs, byte) is Some <==> file_batch_at(writes, byte) is Some);
        if byte >= size && before.clean_tail(keyspace_id, file_id) {
            assert(before.file_byte(keyspace_id, file_id, byte) == 0);
        }
    }
    if before.clean_tail(keyspace_id, file_id) {
        assert forall|byte: int|
            after.file_size(keyspace_id, file_id) <= byte < after.file_limit(
                keyspace_id,
                file_id,
            ) implies #[trigger] after.file_byte(keyspace_id, file_id, byte) == 0 by {
            assert(file_batch_at(writes, byte) is None);
        }
    }
}

} // verus!
