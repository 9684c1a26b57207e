//! Requests on keyspaces and files: creating them, grants, and replay.
use vstd::prelude::*;

use crate::backing::lemma_tree_byte_kept;
use crate::block_api::{BlockRange, ByteRange, PayloadIntegrity, WriteDurability};
use crate::block_commit::{LOCAL_GRANT_EXPIRATION, LOCAL_PRINCIPAL, LOCAL_TENANT, receipts_usable};
use crate::coordinator::LocalCoordinator;
use crate::delta_records::{NativeFileDeltaCommit, NativeFileDeltaEntry, NativeFileDeltaReplacement};
use crate::device_trees::bases_wf;
use crate::error::StorageError;
use crate::file_commit::lemma_places_kept;
use crate::file_publish::{
    NativeFileReceiptEdit, NativeFileReceiptPublish, file_delta_edit, file_delta_edits,
    lemma_fenced_streams_wf, receipt_edits,
};
use crate::grants::{WriteGrant, WriteGrantRequest, grant_for, receipt_matches};
use crate::id::{
    BlockCount, BlockIndex, FileId, FileVersion, KeyspaceGeneration, KeyspaceId, LogicalDeadline,
    PrincipalId, TenantId,
};
use crate::metadata_files::stream_is_of;
use crate::metadata_records::MappingOwner;
use crate::native_api::{FileWriteCommit, KeyspaceInfo};
use crate::observability::{StorageEventKind, counted, write_counted};
use crate::ranges::blocks_for_bytes;
use crate::read_plan::node_runs_backed;
use crate::segment_records::{SegmentLifecycleState, SegmentWriteReceipt, WriteGrantIntent};
use crate::storage_nodes::keeps_segments;
use crate::stored::{named_by, segments_marked, segments_referred};
use crate::tree::{SegmentReplacement, TreeRangeEdit, edits_backed, node_backed};
use crate::tree_build::holds_no_entries;
use crate::tree_edit::edits_allowed;

verus! {

impl LocalCoordinator {
    /// Creates an empty keyspace.
    pub fn create_keyspace(&mut self) -> (result: Result<KeyspaceId, StorageError>)
        requires
            old(self).wf(),
        ensures
            final(self).wf(),
            final(self).keeps_store(old(self)),
            final(self).storage_nodes == old(self).storage_nodes,
            final(self).metadata.device_heads == old(self).metadata.device_heads,
            final(self).metadata.device_specs == old(self).metadata.device_specs,
            result matches Ok(keyspace_id) ==> {
                &&& !old(self).metadata.has_keyspace(keyspace_id)
                &&& final(self).metadata.has_keyspace(keyspace_id)
                &&& final(self).metadata.keyspace_heads@[keyspace_id.0].file_count == 0
                &&& forall|f: FileId| !(#[trigger] final(self).metadata.has_file(keyspace_id, f))
                &&& forall|k: KeyspaceId, f: FileId|
                    old(self).metadata.has_keyspace(k) ==> #[trigger] final(self).metadata.file_head(k, f) == old(self).metadata.file_head(k, f)
            },
            result is Err ==> old(self).config.shard_count > u32::MAX || !old(self).room_for(0),
            result matches Ok(keyspace_id) ==> keyspace_id.0 == old(self).metadata.next_keyspace_id
                && final(self).metadata.keyspace_heads@[keyspace_id.0].generation
                == KeyspaceGeneration(1) && final(self).metadata.keyspace_heads@.remove(
                keyspace_id.0,
            ) == old(self).metadata.keyspace_heads@,
            final(self).moved_within(old(self), 0),
            *final(self) == (LocalCoordinator { metadata: final(self).metadata, ..*old(self) }),
            final(self).metadata.same_outside_files(&old(self).metadata),
            final(self).metadata.records_kept(&old(self).metadata),
            result is Err ==> final(self).metadata.keyspace_heads == old(
                self,
            ).metadata.keyspace_heads,
    {
        self.metadata.create_keyspace(self.config)
    }

    pub fn keyspace_info(&self, keyspace_id: KeyspaceId) -> (result: Result<
        KeyspaceInfo,
        StorageError,
    >)
        ensures
            result is Ok <==> self.metadata.has_keyspace(keyspace_id),
            result matches Ok(info) ==> info == (KeyspaceInfo {
                keyspace_id,
                generation: self.metadata.keyspace_heads@[keyspace_id.0].generation,
                latest_commit: self.metadata.keyspace_heads@[keyspace_id.0].latest_commit,
                file_count: self.metadata.keyspace_heads@[keyspace_id.0].file_count,
            }),
            result matches Err(error) ==> error == (StorageError::NotFound {
                kind: "keyspace",
                id: keyspace_id.0,
            }),
    {
        self.metadata.keyspace_info(keyspace_id)
    }

    /// Creates an empty file.
    pub fn create_file(&mut self, keyspace_id: KeyspaceId, name: Option<String>) -> (result: Result<
        FileId,
        StorageError,
    >)
        requires
            old(self).wf(),
        ensures
            final(self).wf(),
            final(self).keeps_store(old(self)),
            final(self).storage_nodes == old(self).storage_nodes,
            final(self).metadata.device_heads == old(self).metadata.device_heads,
            final(self).metadata.device_specs == old(self).metadata.device_specs,
            final(self).metadata.keyspace_heads@.dom() == old(self).metadata.keyspace_heads@.dom(),
            result matches Ok(file_id) ==> {
                &&& old(self).metadata.has_keyspace(keyspace_id)
                &&& !old(self).metadata.has_file(keyspace_id, file_id)
                &&& file_id.0 == old(self).metadata.next_file_id
                &&& final(self).metadata.has_file(keyspace_id, file_id)
                &&& final(self).metadata.file_head(keyspace_id, file_id)->0.version == FileVersion(1)
                &&& final(self).file_size(keyspace_id, file_id) == 0
                &&& final(self).file_limit(keyspace_id, file_id) == old(
                    self,
                ).config.file_root_blocks * old(self).block_size()
                &&& final(self).clean_tail(keyspace_id, file_id)
                &&& final(self).metadata.other_files_kept(
                    &old(self).metadata,
                    keyspace_id,
                    file_id,
                )
            },
            result is Err ==> !old(self).metadata.has_keyspace(keyspace_id) || old(
                self,
            ).config.file_root_blocks * old(self).block_size() > u64::MAX || !old(self).room_for(0) || old(self).metadata.keyspace_heads@[keyspace_id.0].generation.0 == u64::MAX || old(self).metadata.keyspace_heads@[keyspace_id.0].file_count == usize::MAX,
            !old(self).metadata.has_keyspace(keyspace_id) ==> result == Err::<FileId, StorageError>(
                StorageError::NotFound { kind: "keyspace", id: keyspace_id.0 },
            ),
            final(self).moved_within(old(self), 0),
            *final(self) == (LocalCoordinator { metadata: final(self).metadata, ..*old(self) }),
            final(self).metadata.same_outside_files(&old(self).metadata),
            final(self).metadata.records_kept(&old(self).metadata),
            result is Err ==> final(self).metadata.keyspace_heads == old(
                self,
            ).metadata.keyspace_heads,
            result matches Ok(file_id) ==> final(self).metadata.file_creation_recorded(
                &old(self).metadata,
                keyspace_id,
                final(self).metadata.file_head(keyspace_id, file_id)->0,
            ),
    {
        let ghost before = *self;
        let result = self.metadata.create_file(self.config, keyspace_id, name);
        proof {
            let bs = self.block_size();
            self.metadata.trees.lemma_few_new(&before.metadata.trees);
            assert(1usize <= usize::MAX);
            assert forall|id: u128| #[trigger] self.nodes().contains_key(id) implies node_backed(
                self.nodes()[id],
                self.segments(),
            ) by {
                if before.nodes().contains_key(id) {
                    assert(node_backed(before.nodes()[id], before.segments()));
                } else {
                    assert(holds_no_entries(self.nodes()[id]));
                }
            }
            assert forall|id: u128| #[trigger] self.nodes().contains_key(
                id,
            ) implies node_runs_backed(self.nodes()[id], self.logs()) by {
                if before.nodes().contains_key(id) {
                    assert(node_runs_backed(before.nodes()[id], before.logs()));
                } else {
                    assert(holds_no_entries(self.nodes()[id]));
                }
            }
            if let Ok(file_id) = result {
                let root = self.metadata.file_head(keyspace_id, file_id)->0.root;
                assert forall|byte: int|
                    self.file_size(keyspace_id, file_id) <= byte < self.file_limit(
                        keyspace_id,
                        file_id,
                    ) implies #[trigger] self.file_byte(keyspace_id, file_id, byte) == 0 by {
                    assert(crate::tree::run_at(self.nodes(), root.0, bs, byte) is None);
                    assert(crate::tree::block_at(
                        self.nodes(),
                        root.0,
                        byte / bs as int,
                    ) is None);
                }
            }
        }
        result
    }

    /// Issues a grant to store a range of a file.
    pub fn issue_native_write_grant(
        &mut self,
        keyspace_id: KeyspaceId,
        file_id: FileId,
        range: ByteRange,
        segment_bytes: u64,
        durability: WriteDurability,
    ) -> (result: Result<WriteGrant, StorageError>)
        requires
            old(self).wf(),
        ensures
            final(self).wf(),
            final(self).same_metadata(old(self)),
            final(self).segments() == old(self).segments(),
            final(self).storage_nodes.node_ids@ == old(self).storage_nodes.node_ids@,
            final(self).storage_nodes.next_offset == old(self).storage_nodes.next_offset,
            final(self).moved_within(old(self), 0),
            result is Ok ==> final(self).observability.counters == counted(
                old(self).observability.counters,
                StorageEventKind::GrantIssued,
            ),
            range.len == 0 || segment_bytes == 0 || !old(self).metadata.has_file(
                keyspace_id,
                file_id,
            ) ==> *final(self) == *old(self),
            range.len > 0 && segment_bytes > 0 && !old(self).metadata.has_file(
                keyspace_id,
                file_id,
            ) ==> (result matches Err(error) && error is NotFound),
            result is Ok <==> range.len > 0 && segment_bytes > 0 && old(self).metadata.has_file(
                keyspace_id,
                file_id,
            ) && old(self).storage_nodes.next_segment_id < u128::MAX && old(
                self,
            ).next_write_intent < u128::MAX,
            result matches Ok(grant) ==> {
                &&& grant == grant_for(grant.request)
                &&& grant.request.storage_node == old(self).storage_nodes.in_turn()
                &&& grant.request.intent == (WriteGrantIntent::NativeWrite {
                    keyspace_id,
                    file_id,
                    range,
                    base_version: old(self).metadata.file_head(keyspace_id, file_id)->0.version,
                })
                &&& grant.request.max_bytes == segment_bytes
                &&& grant.request.durability == durability
                &&& grant.request.payload_integrity == PayloadIntegrity::Verified
                &&& grant.request.segment_id.0 == old(self).storage_nodes.next_segment_id
                &&& final(self).storage_nodes.has_node(grant.request.storage_node)
                &&& !final(self).segments().contains_key(grant.request.segment_id.0)
                &&& grant.request.segment_id.0 < final(self).storage_nodes.next_segment_id
            },
            range.len == 0 || segment_bytes == 0 ==> result == Err::<WriteGrant, StorageError>(
                StorageError::InvalidArgument { message: "native write grant must contain bytes" },
            ),
    {
        if range.len == 0 || segment_bytes == 0 {
            return Err(StorageError::invalid_argument("native write grant must contain bytes"));
        }
        assert(self.metadata.files_wf(self.block_size()));
        let head = match self.metadata.get_file_head(keyspace_id, file_id) {
            Ok(head) => head,
            Err(error) => return Err(error),
        };
        let (storage_node, segment_id, write_intent) = match self.place_grant() {
            Ok(placed) => placed,
            Err(error) => return Err(error),
        };
        self.issue_write_grant(
            WriteGrantRequest {
                tenant: TenantId(LOCAL_TENANT),
                principal: PrincipalId(LOCAL_PRINCIPAL),
                intent: WriteGrantIntent::NativeWrite {
                    keyspace_id,
                    file_id,
                    range,
                    base_version: head.version,
                },
                write_intent,
                segment_id,
                storage_node,
                max_bytes: segment_bytes,
                payload_integrity: PayloadIntegrity::Verified,
                durability,
                expires_at: LogicalDeadline(LOCAL_GRANT_EXPIRATION),
            },
        )
    }

    /// The blocks that a range of bytes touches.
    pub open spec fn blocks_touched(range: ByteRange, block_size: u64) -> BlockRange {
        let first = range.offset as int / block_size as int;
        BlockRange {
            start: BlockIndex(first as u64),
            blocks: BlockCount(
                crate::ranges::blocks_covering(
                    range.end() - first * block_size,
                    block_size as int,
                ) as u64,
            ),
        }
    }

    /// Publishes a segment that was stored under a grant for a file.
    #[verifier::rlimit(60)]
    pub fn submit_native_write_receipt(
        &mut self,
        grant: &WriteGrant,
        receipt: SegmentWriteReceipt,
    ) -> (result: Result<FileWriteCommit, StorageError>)
        requires
            old(self).wf(),
        ensures
            final(self).wf(),
            final(self).keeps_store(old(self)),
            result matches Ok(commit) ==> receipt_matches(*grant, receipt) && (
            receipt.intent matches WriteGrantIntent::NativeWrite {
                keyspace_id,
                file_id,
                range,
                base_version,
            } && {
                &&& receipt.owner == MappingOwner::NativeKeyspace(keyspace_id)
                &&& final(self).only_file_changed(old(self), keyspace_id, file_id)
                &&& old(self).metadata.has_file(keyspace_id, file_id)
                &&& old(self).metadata.file_head(keyspace_id, file_id)->0.version == base_version
                &&& final(self).file_size(keyspace_id, file_id) == if range.end() > old(
                    self,
                ).file_size(keyspace_id, file_id) {
                    range.end()
                } else {
                    old(self).file_size(keyspace_id, file_id)
                }
                &&& final(self).file_edited(
                    old(self),
                    keyspace_id,
                    file_id,
                    receipt_edits(
                        seq![
                            NativeFileReceiptEdit {
                                range: LocalCoordinator::blocks_touched(
                                    range,
                                    old(self).block_size(),
                                ),
                                receipt,
                            },
                        ],
                    ),
                )
                &&& commit == (FileWriteCommit {
                    keyspace_id,
                    file_id,
                    range,
                    version: final(self).metadata.file_head(keyspace_id, file_id)->0.version,
                    commit_seq: final(self).metadata.file_head(
                        keyspace_id,
                        file_id,
                    )->0.latest_commit,
                    durability: receipt.durability,
                })
            }),
            result is Ok ==> segments_marked(
                old(self).segments(),
                final(self).segments(),
                seq![receipt],
            ) && final(self).segments()[receipt.segment_id.0].entry.state
                == SegmentLifecycleState::Referenced
                && final(self).segments()[receipt.segment_id.0].entry.receipt == Some(receipt),
            result is Ok ==> write_counted(
                old(self).observability.counters,
                final(self).observability.counters,
                true,
            ),
            old(self).takes_native_receipt(*grant, receipt) ==> (
            receipt.intent matches WriteGrantIntent::NativeWrite { keyspace_id, file_id, .. }
                ==> old(self).file_room(keyspace_id, file_id) ==> result is Ok),
            final(self).moved_within(old(self), 0),
            receipt_matches(*grant, receipt) ==> (
            receipt.intent matches WriteGrantIntent::NativeWrite {
                keyspace_id,
                file_id,
                base_version,
                range,
            } ==> receipt.owner == MappingOwner::NativeKeyspace(keyspace_id) && range.end()
                <= u64::MAX && old(self).metadata.has_file(keyspace_id, file_id) && old(
                self,
            ).metadata.file_head(keyspace_id, file_id)->0.version != base_version ==> (
            result matches Err(error) && error is Conflict) && final(self).metadata == old(
                self,
            ).metadata && final(self).storage_nodes == old(self).storage_nodes),
            receipt.intent matches WriteGrantIntent::NativeWrite { keyspace_id, file_id, .. }
                ==> final(self).only_file_changed(old(self), keyspace_id, file_id) && (
            result is Err && old(self).segments().contains_key(receipt.segment_id.0) && old(
                self,
            ).segments()[receipt.segment_id.0].entry.receipt == Some(receipt) && (old(
                self,
            ).segments()[receipt.segment_id.0].entry.state
                == SegmentLifecycleState::DurablePendingMetadata || old(
                self,
            ).segments()[receipt.segment_id.0].entry.state == SegmentLifecycleState::Referenced)
                ==> final(self).metadata.file_head(keyspace_id, file_id) == old(
                self,
            ).metadata.file_head(keyspace_id, file_id)),
            result matches Ok(commit) ==> commit.commit_seq.0 == old(
                self,
            ).metadata.next_commit_seq,
            !receipt_matches(*grant, receipt) ==> (result matches Err(error) && error is Corrupt),
            receipt_matches(*grant, receipt) && !(receipt.intent is NativeWrite) ==> (
            result matches Err(error) && error is InvalidArgument),
    {
        let ghost before = *self;
        proof {
            before.metadata.lemma_own_records();
        }
        let bs: u64 = self.config.block_size as u64;
        self.record_event(StorageEventKind::CoordinatorWriteStarted, None, None, None);
        match self.verify_receipt_matches_grant_observed(grant, &receipt) {
            Ok(()) => {},
            Err(error) => return Err(error),
        }
        let (keyspace_id, file_id, range, base_version) = match receipt.intent {
            WriteGrantIntent::NativeWrite { keyspace_id, file_id, range, base_version } => (
                keyspace_id,
                file_id,
                range,
                base_version,
            ),
            _ => return Err(
                StorageError::invalid_argument(
                    "trusted native write publish requires a native write receipt",
                ),
            ),
        };
        let owned = match receipt.owner {
            MappingOwner::NativeKeyspace(owner) => owner.0 == keyspace_id.0,
            _ => false,
        };
        if !owned {
            return Err(
                StorageError::conflict("receipt owner does not match native keyspace intent"),
            );
        }
        let end: u64 = match range.end_exclusive() {
            Ok(end) => end,
            Err(error) => return Err(error),
        };
        let first_block: u64 = range.offset / bs;
        proof {
            crate::file_groups::lemma_round(range.offset as int, bs as int);
        }
        let requested_start: u64 = first_block * bs;
        let segment_blocks: u64 = match blocks_for_bytes(end - requested_start, bs) {
            Ok(segment_blocks) => segment_blocks,
            Err(error) => return Err(error),
        };
        let write_range = BlockRange {
            start: BlockIndex(first_block),
            blocks: BlockCount(segment_blocks),
        };
        assert(write_range == LocalCoordinator::blocks_touched(range, bs));
        assert(self.metadata.files_wf(self.block_size()));
        let head = match self.metadata.get_file_head(keyspace_id, file_id) {
            Ok(head) => head,
            Err(error) => return Err(error),
        };
        let new_size: u64 = if end > head.size {
            end
        } else {
            head.size
        };
        let mut edits: Vec<NativeFileReceiptEdit> = Vec::new();
        edits.push(NativeFileReceiptEdit { range: write_range, receipt });
        let ghost the_edits = edits@;
        let ghost middle = *self;
        assert(the_edits =~= seq![NativeFileReceiptEdit { range: write_range, receipt }]);
        assert(the_edits[0].receipt == receipt);
        assert(crate::file_publish::receipts_of(the_edits) =~= seq![receipt]);
        let result = self.publish_native_file_receipt_edits_with_delta(
            NativeFileReceiptPublish {
                keyspace_id,
                file_id,
                base_version,
                committed_range: range,
                new_size,
                edits,
                durability: receipt.durability,
            },
            1,
            1,
            range.len,
        );
        proof {
            assert(the_edits =~= seq![NativeFileReceiptEdit { range: write_range, receipt }]);
            assert forall|k: KeyspaceId, f: FileId|
                (k != keyspace_id || f != file_id) && before.metadata.has_keyspace(
                    k,
                ) implies #[trigger] self.metadata.file_head(k, f) == before.metadata.file_head(
                k,
                f,
            ) by {
                assert(middle.metadata.has_keyspace(k));
                assert(self.metadata.file_head(k, f) == middle.metadata.file_head(k, f));
            }
            if result is Ok {
                assert(self.file_edited(
                    &middle,
                    keyspace_id,
                    file_id,
                    receipt_edits(the_edits),
                ));
                assert forall|byte: int|
                    0 <= byte < before.file_limit(keyspace_id, file_id) implies #[trigger]
                    self.file_byte(keyspace_id, file_id, byte) == self.edited_file_byte(
                    receipt_edits(the_edits),
                    byte,
                    before.file_byte(keyspace_id, file_id, byte),
                ) by {
                    assert(middle.file_byte(keyspace_id, file_id, byte) == before.file_byte(
                        keyspace_id,
                        file_id,
                        byte,
                    ));
                }
                lemma_places_kept(
                    before,
                    middle,
                    *self,
                    *self,
                    keyspace_id,
                    file_id,
                    receipt_edits(the_edits),
                );
            }
        }
        match result {
            Ok(committed) => Ok(committed.commit),
            Err(error) => Err(error),
        }
    }
}

/// Whether the entries of a file delta fit the file's tree.
pub open spec fn file_entries_fit(
    entries: Seq<NativeFileDeltaEntry>,
    covered: BlockRange,
) -> bool {
    forall|i: int| 0 <= i < entries.len() ==> file_entry_fits(#[trigger] entries[i], covered)
}

pub open spec fn file_entry_fits(entry: NativeFileDeltaEntry, covered: BlockRange) -> bool {
    let NativeFileDeltaReplacement::Segment { segment_offset, .. } = entry.replacement;
    &&& entry.range.end() <= u64::MAX
    &&& covered.start.0 <= entry.range.start.0
    &&& entry.range.end() <= covered.end()
    &&& segment_offset.0 <= entry.range.start.0
}

impl LocalCoordinator {
    /// The tree edits and the receipts of delta entries.
    fn check_file_entries(&self, entries: &Vec<NativeFileDeltaEntry>, covered: BlockRange)
        -> (result: Result<(Vec<TreeRangeEdit>, Vec<SegmentWriteReceipt>), StorageError>)
        requires
            self.wf(),
            covered.end() <= u64::MAX,
        ensures
            result matches Ok((edits, receipts)) ==> file_entries_fit(entries@, covered)
                && edits@ == file_delta_edits(entries@) && bases_wf(edits@) && receipts@.len()
                == entries@.len() && forall|i: int|
                0 <= i < entries@.len() ==> self.segments().contains_key(
                    (#[trigger] receipts@[i]).segment_id.0,
                ) && self.segments()[receipts@[i].segment_id.0].entry.receipt == Some(receipts@[i])
                    && entries@[i].replacement->Segment_segment_id == receipts@[i].segment_id,
            result is Err ==> !file_entries_fit(entries@, covered) || exists|i: int|
                0 <= i < entries@.len() && !(self.segments().contains_key(
                    (#[trigger] entries@[i]).replacement->Segment_segment_id.0,
                ) && self.segments()[entries@[i].replacement->Segment_segment_id.0].entry.receipt
                    is Some),
    {
        let mut edits: Vec<TreeRangeEdit> = Vec::new();
        let mut receipts: Vec<SegmentWriteReceipt> = Vec::new();
        let mut i: usize = 0;
        while i < entries.len()
            invariant
                i <= entries@.len(),
                self.wf(),
                covered.end() <= u64::MAX,
                edits@.len() == i,
                receipts@.len() == i,
                forall|k: int| 0 <= k < i ==> #[trigger] edits@[k] == file_delta_edit(entries@[k]),
                forall|k: int| 0 <= k < i ==> file_entry_fits(#[trigger] entries@[k], covered),
                forall|k: int|
                    0 <= k < i ==> self.segments().contains_key(
                        (#[trigger] receipts@[k]).segment_id.0,
                    ) && self.segments()[receipts@[k].segment_id.0].entry.receipt == Some(
                        receipts@[k],
                    ) && entries@[k].replacement->Segment_segment_id == receipts@[k].segment_id,
            decreases entries@.len() - i,
        {
            let entry = entries[i];
            assert(entries@[i as int] == entry);
            match covered.contains_range(entry.range) {
                Ok(inside) => {
                    if !inside {
                        assert(!file_entry_fits(entries@[i as int], covered));
                        return Err(
                            StorageError::corrupt(
                                "native file delta range exceeds file root coverage",
                            ),
                        );
                    }
                },
                Err(error) => {
                    assert(!file_entry_fits(entries@[i as int], covered));
                    return Err(error);
                },
            }
            let NativeFileDeltaReplacement::Segment { segment_id, segment_offset } =
                entry.replacement;
            if segment_offset.0 > entry.range.start.0 {
                assert(!file_entry_fits(entries@[i as int], covered));
                return Err(
                    StorageError::corrupt("native file delta segment offset exceeds logical start"),
                );
            }
            let receipt = match self.storage_nodes.receipt_for_segment(segment_id) {
                Ok(receipt) => receipt,
                Err(error) => {
                    assert(entries@[i as int].replacement->Segment_segment_id == segment_id);
                    return Err(error);
                },
            };
            proof {
                assert(self.segments().contains_key(segment_id.0));
                assert(crate::storage_nodes::record_wf(
                    self.segments()[segment_id.0],
                    segment_id.0,
                    self.block_size(),
                ));
            }
            edits.push(
                TreeRangeEdit {
                    range: entry.range,
                    replacement: Some(
                        SegmentReplacement {
                            segment_id,
                            segment_base: BlockIndex(entry.range.start.0 - segment_offset.0),
                        },
                    ),
                },
            );
            receipts.push(receipt);
            i = i + 1;
        }
        assert(edits@ =~= file_delta_edits(entries@));
        Ok((edits, receipts))
    }

    /// Whether a file's delta can be replayed.
    pub open spec fn takes_file_delta(&self, commit: NativeFileDeltaCommit) -> bool {
        let head = self.metadata.file_head(commit.keyspace_id, commit.file_id)->0;
        let covered = self.nodes()[head.root.0].covered_range;
        &&& commit.entries@.len() > 0
        &&& self.metadata.has_file(commit.keyspace_id, commit.file_id)
        &&& head.version == commit.base_file_version
        &&& head.size == commit.old_size
        &&& commit.new_file_version.0 == head.version.0 + 1
        &&& commit.new_size <= self.file_limit(commit.keyspace_id, commit.file_id)
        &&& self.metadata.next_commit_seq <= commit.commit_seq.0
        &&& file_entries_fit(commit.entries@, covered)
        &&& edits_allowed(file_delta_edits(commit.entries@), covered)
        &&& edits_backed(file_delta_edits(commit.entries@), self.segments())
        &&& forall|i: int|
            0 <= i < commit.entries@.len() ==> (self.segments()[(
            #[trigger] commit.entries@[i]).replacement->Segment_segment_id.0].entry.state
                == SegmentLifecycleState::DurablePendingMetadata
                || self.segments()[commit.entries@[i].replacement->Segment_segment_id.0].entry.state
                == SegmentLifecycleState::Referenced)
    }

    /// Makes a file's commit again from the delta that it left.
    #[verifier::rlimit(80)]
    pub fn replay_native_file_delta_commit(&mut self, commit: &NativeFileDeltaCommit) -> (result:
        Result<(), StorageError>)
        requires
            old(self).wf(),
        ensures
            final(self).wf(),
            final(self).keeps_store(old(self)),
            final(self).only_file_changed(old(self), commit.keyspace_id, commit.file_id),
            result is Ok ==> {
                &&& commit.entries@.len() > 0
                &&& old(self).metadata.has_file(commit.keyspace_id, commit.file_id)
                &&& old(self).metadata.file_head(
                    commit.keyspace_id,
                    commit.file_id,
                )->0.version == commit.base_file_version
                &&& old(self).file_size(commit.keyspace_id, commit.file_id) == commit.old_size
                &&& final(self).metadata.file_head(
                    commit.keyspace_id,
                    commit.file_id,
                )->0.version == commit.new_file_version
                &&& final(self).metadata.file_head(
                    commit.keyspace_id,
                    commit.file_id,
                )->0.latest_commit == commit.commit_seq
                &&& final(self).file_size(commit.keyspace_id, commit.file_id) == commit.new_size
                &&& final(self).file_edited(
                    old(self),
                    commit.keyspace_id,
                    commit.file_id,
                    file_delta_edits(commit.entries@),
                )
                &&& segments_referred(
                    old(self).segments(),
                    final(self).segments(),
                    file_entry_segments(commit.entries@),
                )
                &&& final(self).observability.counters == counted(
                    old(self).observability.counters,
                    StorageEventKind::MetadataPublishSucceeded,
                )
            },
            old(self).takes_file_delta(*commit) && commit.commit_seq.0 + 1 < u64::MAX && old(
                self,
            ).file_room(commit.keyspace_id, commit.file_id) ==> result is Ok,
            commit.entries@.len() == 0 ==> result == Err::<(), StorageError>(
                StorageError::Corrupt { message: "native file delta commit has no entries" },
            ) && *final(self) == *old(self),
    {
        let ghost before = *self;
        proof {
            before.metadata.lemma_own_records();
        }
        let bs: u64 = self.config.block_size as u64;
        let keyspace_id = commit.keyspace_id;
        let file_id = commit.file_id;
        if commit.entries.len() == 0 {
            return Err(StorageError::corrupt("native file delta commit has no entries"));
        }
        assert(self.metadata.files_wf(self.block_size()));
        let head = match self.metadata.get_file_head(keyspace_id, file_id) {
            Ok(head) => head,
            Err(error) => return Err(error),
        };
        proof {
            self.metadata.lemma_file_wf(keyspace_id, file_id, bs);
            assert(crate::tree::node_wf(self.nodes(), head.root.0, bs));
        }
        if head.version.0 != commit.base_file_version.0 || head.size != commit.old_size {
            return Err(
                StorageError::corrupt("native file delta base head disagrees with replay state"),
            );
        }
        match self.metadata.set_next_commit_seq_for_replay(commit.commit_seq) {
            Ok(()) => {},
            Err(error) => return Err(error),
        }
        let covered = match self.metadata.trees.nodes.get(head.root.raw()) {
            Some(node) => node.covered_range,
            None => return Err(StorageError::not_found("metadata_node", head.root.raw())),
        };
        proof {
            assert(covered.end() <= u64::MAX) by (nonlinear_arith)
                requires
                    covered.end() * bs <= u64::MAX,
                    bs >= 1,
                    covered.end() >= 0,
            ;
        }
        let (edits, receipts) = match self.check_file_entries(&commit.entries, covered) {
            Ok(checked) => checked,
            Err(error) => {
                proof {
                    if before.takes_file_delta(*commit) {
                        let i = choose|i: int|
                            0 <= i < commit.entries@.len() && !(self.segments().contains_key(
                                (#[trigger] commit.entries@[i]).replacement->Segment_segment_id.0,
                            ) && self.segments()[commit.entries@[i].replacement->Segment_segment_id.0].entry.receipt
                                is Some);
                        assert(file_delta_edits(commit.entries@)[i] == file_delta_edit(
                            commit.entries@[i],
                        ));
                        assert(file_delta_edits(commit.entries@)[i].backed(before.segments()));
                    }
                }
                return Err(error);
            },
        };
        proof {
            if before.takes_file_delta(*commit) {
                assert forall|i: int| 0 <= i < receipts@.len() implies
                    before.segments().contains_key((#[trigger] receipts@[i]).segment_id.0)
                    && before.segments()[receipts@[i].segment_id.0].entry.receipt == Some(
                    receipts@[i],
                ) && (before.segments()[receipts@[i].segment_id.0].entry.state
                    == SegmentLifecycleState::DurablePendingMetadata
                    || before.segments()[receipts@[i].segment_id.0].entry.state
                    == SegmentLifecycleState::Referenced) by {
                    assert(commit.entries@[i].replacement->Segment_segment_id
                        == receipts@[i].segment_id);
                }
                assert(receipts_usable(before.segments(), receipts@));
            }
        }
        let ghost middle = *self;
        let published = self.publish_file_edits(
            keyspace_id,
            file_id,
            commit.base_file_version,
            commit.new_size,
            &edits,
        );
        proof {
            assert forall|k: KeyspaceId, f: FileId|
                (k != keyspace_id || f != file_id) && before.metadata.has_keyspace(
                    k,
                ) implies #[trigger] self.metadata.file_head(k, f) == before.metadata.file_head(
                k,
                f,
            ) by {
                assert(middle.metadata.has_keyspace(k));
                assert(self.metadata.file_head(k, f) == middle.metadata.file_head(k, f));
            }
        }
        let ghost published_state = *self;
        let new_head = match published {
            Ok(new_head) => new_head,
            Err(error) => return Err(error),
        };
        if new_head.latest_commit.0 != commit.commit_seq.0 {
            return Err(
                StorageError::corrupt(
                    "native file delta replay produced unexpected commit sequence",
                ),
            );
        }
        if new_head.version.0 != commit.new_file_version.0 || new_head.size != commit.new_size {
            return Err(
                StorageError::corrupt("native file delta replay produced unexpected file head"),
            );
        }
        let marked = self.mark_receipts_referenced(&receipts, new_head.latest_commit);
        let ghost marked_state = *self;
        proof {
            assert forall|k: KeyspaceId, f: FileId|
                (k != keyspace_id || f != file_id) && before.metadata.has_keyspace(
                    k,
                ) implies #[trigger] self.metadata.file_head(k, f) == before.metadata.file_head(
                k,
                f,
            ) by {
                assert(published_state.metadata.file_head(k, f) == before.metadata.file_head(k, f));
            }
        }
        match marked {
            Ok(()) => {},
            Err(error) => return Err(error),
        }
        self.metadata.invalidate_append_streams_for_file(keyspace_id, file_id);
        proof {
            assert(self.metadata.append_streams@.dom() =~= before.metadata.append_streams@.dom());
            assert forall|id: u128| #[trigger]
                before.metadata.append_streams@.contains_key(id) && !stream_is_of(
                    before.metadata.append_streams@[id],
                    keyspace_id,
                    file_id,
                ) implies self.metadata.append_streams@[id]
                == before.metadata.append_streams@[id] by {
                assert(marked_state.metadata.append_streams@ == before.metadata.append_streams@);
            }
            lemma_fenced_streams_wf(
                marked_state.logs(),
                marked_state.metadata.append_streams@,
                marked_state.metadata.next_append_stream_id,
                keyspace_id,
                file_id,
            );
            assert forall|k: KeyspaceId, f: FileId|
                (k != keyspace_id || f != file_id) && before.metadata.has_keyspace(
                    k,
                ) implies #[trigger] self.metadata.file_head(k, f) == before.metadata.file_head(
                k,
                f,
            ) by {
                assert(published_state.metadata.file_head(k, f) == before.metadata.file_head(k, f));
            }
            assert(self.metadata.file_head(keyspace_id, file_id)
                == published_state.metadata.file_head(keyspace_id, file_id));
            assert forall|id: u128| named_by(receipts@, id) == file_entry_segments(
                commit.entries@,
            ).contains(id) by {
                if named_by(receipts@, id) {
                    let k = choose|k: int|
                        0 <= k < receipts@.len() && (#[trigger] receipts@[k]).segment_id.0 == id;
                    assert(commit.entries@[k].replacement->Segment_segment_id
                        == receipts@[k].segment_id);
                }
                if file_entry_segments(commit.entries@).contains(id) {
                    let k = choose|k: int|
                        0 <= k < commit.entries@.len() && (
                        #[trigger] commit.entries@[k]).replacement->Segment_segment_id.0 == id;
                    assert(commit.entries@[k].replacement->Segment_segment_id
                        == receipts@[k].segment_id);
                }
            }
            lemma_replayed_bytes(
                before,
                middle,
                published_state,
                *self,
                keyspace_id,
                file_id,
                commit.entries@,
                receipts@,
            );
        }
        Ok(())
    }
}

/// The segments that the entries of a file's delta refer to.
pub open spec fn file_entry_segments(entries: Seq<NativeFileDeltaEntry>) -> Set<u128> {
    Set::new(
        |id: u128|
            exists|i: int|
                0 <= i < entries.len() && (
                #[trigger] entries[i]).replacement->Segment_segment_id.0 == id,
    )
}

proof fn lemma_replayed_bytes(
    before: LocalCoordinator,
    middle: LocalCoordinator,
    published: LocalCoordinator,
    after: LocalCoordinator,
    keyspace_id: KeyspaceId,
    file_id: FileId,
    entries: Seq<NativeFileDeltaEntry>,
    receipts: Seq<SegmentWriteReceipt>,
)
    requires
        published.wf(),
        middle.nodes() == before.nodes(),
        middle.segments() == before.segments(),
        middle.logs() == before.logs(),
        middle.config == before.config,
        middle.metadata.file_head(keyspace_id, file_id) == before.metadata.file_head(
            keyspace_id,
            file_id,
        ),
        published.file_edited(&middle, keyspace_id, file_id, file_delta_edits(entries)),
        after.nodes() == published.nodes(),
        after.logs() == published.logs(),
        after.config == published.config,
        published.config == before.config,
        keeps_segments(published.segments(), after.segments()),
        after.metadata.file_head(keyspace_id, file_id) == published.metadata.file_head(
            keyspace_id,
            file_id,
        ),
        receipts.len() == entries.len(),
        forall|i: int|
            0 <= i < entries.len() ==> published.segments().contains_key(
                (#[trigger] receipts[i]).segment_id.0,
            ) && entries[i].replacement->Segment_segment_id == receipts[i].segment_id,
    ensures
        after.file_edited(&before, keyspace_id, file_id, file_delta_edits(entries)),
{
    let edits = file_delta_edits(entries);
    published.metadata.lemma_file_wf(keyspace_id, file_id, published.block_size());
    assert forall|byte: int|
        0 <= byte < before.file_limit(keyspace_id, file_id) implies #[trigger] after.file_byte(
        keyspace_id,
        file_id,
        byte,
    ) == after.edited_file_byte(edits, byte, before.file_byte(keyspace_id, file_id, byte)) by {
        assert(published.file_byte(keyspace_id, file_id, byte) == published.edited_file_byte(
            edits,
            byte,
            middle.file_byte(keyspace_id, file_id, byte),
        ));
        lemma_tree_byte_kept(
            published,
            after,
            published.metadata.file_head(keyspace_id, file_id)->0.root,
            byte,
        );
        let block = byte / after.block_size() as int;
        if crate::tree::is_edited(edits, block) {
            let i = choose|i: int|
                0 <= i < edits.len() && (#[trigger] edits[i]).range.contains(block);
            assert(edits[i] == file_delta_edit(entries[i]));
            assert(published.segments().contains_key(receipts[i].segment_id.0));
        }
    }
    lemma_places_kept(before, middle, published, after, keyspace_id, file_id, edits);
}

} // verus!
