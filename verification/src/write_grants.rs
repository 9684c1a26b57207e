//! Grants: the right to store one segment, and what comes of it.
use vstd::prelude::*;

use crate::backing::{lemma_device_block_stored, lemma_stored_byte_kept};
use crate::block_api::{BlockRange, ByteRange, PayloadIntegrity, WriteCommit, WriteDurability};
use crate::block_chunks::single_shard_for_block_range;
use crate::block_commit::{
    LOCAL_GRANT_EXPIRATION, LOCAL_PRINCIPAL, LOCAL_TENANT, lemma_tree_backed_kept,
};
use crate::coordinator::{LocalCoordinator, lemma_block_of_byte, whole_blocks};
use crate::device_trees::{device_block_at, edits_in_shards, lemma_shard_unique};
use crate::error::StorageError;
use crate::file_publish::{NativeFileReceiptEdit, receipt_edit_of, receipt_edits, receipts_of};
use crate::grants::{
    WriteGrant, WriteGrantRequest, grant_for, intent_owner, issue_write_grant, receipt_for,
    receipt_matches, receipt_valid, verify_receipt_matches_grant, verify_segment_receipt,
    verify_write_grant,
};
use crate::id::{
    DeviceId, LogicalDeadline, PrincipalId, SegmentId, StorageNodeId, TenantId, WriteIntentId,
};
use crate::integrity::payload_integrity_of;
use crate::metadata_records::{MappingOwner, SegmentDescriptor};
use crate::observability::{StorageEventKind, counted, write_counted};
use crate::ranges::blocks_covering;
use crate::segment_records::{SegmentLifecycleState, SegmentWriteReceipt, WriteGrantIntent};
use crate::storage_nodes::keeps_segments;
use crate::stored::segments_marked;
use crate::tree::{
    SegmentReplacement, TreeRangeEdit, edits_backed, is_edited, keeps_nodes,
    law_trees_are_immutable,
};
use crate::tree_edit::edit_outcome;

verus! {

/// A receipt that was checked, by what it vouches for.
#[derive(Clone, Copy, Debug, PartialEq, Eq, Structural)]
pub struct VerifiedSegmentReceipt {
    pub descriptor: SegmentDescriptor,
}

impl LocalCoordinator {
    /// Whether a range of blocks lies in one shard of a device.
    pub open spec fn in_one_shard(&self, device_id: DeviceId, range: BlockRange) -> bool {
        exists|s: int|
            0 <= s < self.metadata.roots_of(device_id).len() && self.nodes()[(
            #[trigger] self.metadata.roots_of(device_id)[s]).0].covered_range.start.0
                <= range.start.0 && range.end() <= self.nodes()[self.metadata.roots_of(
                device_id,
            )[s].0].covered_range.end()
    }

    /// Issues a grant for a request.
    pub fn issue_write_grant(&mut self, request: WriteGrantRequest) -> (result: Result<
        WriteGrant,
        StorageError,
    >)
        requires
            old(self).wf(),
        ensures
            final(self).wf(),
            *final(self) == (LocalCoordinator {
                observability: final(self).observability,
                ..*old(self)
            }),
            final(self).observability.counters == counted(
                old(self).observability.counters,
                if request.max_bytes > 0 {
                    StorageEventKind::GrantIssued
                } else {
                    StorageEventKind::GrantRejected
                },
            ),
            result is Ok <==> request.max_bytes > 0,
            result matches Ok(grant) ==> grant == grant_for(request),
            result matches Err(error) ==> error is InvalidArgument,
    {
        match issue_write_grant(request) {
            Ok(grant) => {
                self.record_event(
                    StorageEventKind::GrantIssued,
                    Some(request.storage_node),
                    Some(request.segment_id),
                    None,
                );
                Ok(grant)
            },
            Err(error) => {
                self.record_event(StorageEventKind::GrantRejected, None, None, None);
                Err(error)
            },
        }
    }

    /// Takes a node, a segment number and a write intent for a new grant.
    pub(crate) fn place_grant(&mut self) -> (result: Result<
        (StorageNodeId, SegmentId, WriteIntentId),
        StorageError,
    >)
        requires
            old(self).wf(),
        ensures
            final(self).wf(),
            final(self).same_metadata(old(self)),
            final(self).observability == old(self).observability,
            final(self).segments() == old(self).segments(),
            final(self).storage_nodes.node_ids@ == old(self).storage_nodes.node_ids@,
            final(self).storage_nodes.next_offset == old(self).storage_nodes.next_offset,
            final(self).moved_within(old(self), 0),
            final(self).storage_nodes.next_placement_index == if old(
                self,
            ).storage_nodes.next_placement_index == u64::MAX {
                0
            } else {
                (old(self).storage_nodes.next_placement_index + 1) as u64
            },
            result matches Ok((storage_node, segment_id, write_intent)) ==> {
                &&& storage_node == old(self).storage_nodes.in_turn()
                &&& final(self).storage_nodes.has_node(storage_node)
                &&& segment_id.0 == old(self).storage_nodes.next_segment_id
                &&& final(self).storage_nodes.next_segment_id == segment_id.0 + 1
                &&& !final(self).segments().contains_key(segment_id.0)
                &&& write_intent.0 == old(self).next_write_intent
                &&& final(self).next_write_intent == write_intent.0 + 1
            },
            result is Ok <==> old(self).storage_nodes.next_segment_id < u128::MAX && old(
                self,
            ).next_write_intent < u128::MAX,
            result matches Err(error) ==> error is Conflict,
    {
        let storage_node = self.storage_nodes.choose_storage_node();
        let segment_id = match self.storage_nodes.allocate_segment_id() {
            Ok(segment_id) => segment_id,
            Err(error) => return Err(error),
        };
        let write_intent = match self.take_write_intent() {
            Ok(write_intent) => write_intent,
            Err(error) => return Err(error),
        };
        Ok((storage_node, segment_id, write_intent))
    }

    /// Issues a grant to store a range of a device's blocks.
    pub fn issue_block_write_grant(
        &mut self,
        device_id: DeviceId,
        range: BlockRange,
        durability: WriteDurability,
    ) -> (result: Result<WriteGrant, StorageError>)
        requires
            old(self).wf(),
        ensures
            final(self).wf(),
            final(self).same_metadata(old(self)),
            final(self).segments() == old(self).segments(),
            final(self).storage_nodes.node_ids@ == old(self).storage_nodes.node_ids@,
            final(self).storage_nodes.next_offset == old(self).storage_nodes.next_offset,
            final(self).moved_within(old(self), 0),
            result is Ok ==> final(self).observability.counters == counted(
                old(self).observability.counters,
                StorageEventKind::GrantIssued,
            ),
            range.blocks.0 > 0 && !old(self).metadata.has_device(device_id) ==> result == Err::<
                WriteGrant,
                StorageError,
            >(StorageError::NotFound { kind: "device", id: device_id.0 }) && *final(self) == *old(
                self,
            ),
            old(self).metadata.has_device(device_id) && (range.blocks.0 == 0 || range.end()
                > u64::MAX || !old(self).in_one_shard(device_id, range)) ==> (
            result matches Err(error) && error is InvalidArgument) && *final(self) == *old(self),
            result matches Ok(grant) ==> {
                &&& old(self).metadata.has_device(device_id)
                &&& range.blocks.0 > 0
                &&& grant == grant_for(grant.request)
                &&& grant.request.storage_node == old(self).storage_nodes.in_turn()
                &&& final(self).grant_is_current(grant, grant.request.max_bytes as int)
                &&& grant.request.segment_id.0 == old(self).storage_nodes.next_segment_id
                &&& grant.request.max_bytes == range.blocks.0 * old(self).block_size()
                &&& grant.request.durability == durability
                &&& grant.request.payload_integrity == PayloadIntegrity::Verified
                &&& final(self).storage_nodes.has_node(grant.request.storage_node)
                &&& !final(self).segments().contains_key(grant.request.segment_id.0)
                &&& grant.request.segment_id.0 < final(self).storage_nodes.next_segment_id
                &&& grant.request.intent matches WriteGrantIntent::BlockWrite {
                    device_id: granted_device,
                    range: granted_range,
                    fence,
                    shard_id,
                    old_root,
                } && granted_device == device_id && granted_range == range && fence == old(
                    self,
                ).metadata.device_heads@[device_id.0].generation && shard_id.0 < old(
                    self,
                ).metadata.roots_of(device_id).len() && old_root == old(self).metadata.roots_of(
                    device_id,
                )[shard_id.0 as int] && old(self).nodes()[old_root.0].covered_range.start.0
                    <= range.start.0 && range.end() <= old(
                    self,
                ).nodes()[old_root.0].covered_range.end()
            },
            result is Ok <==> range.blocks.0 > 0 && range.end() <= u64::MAX && old(
                self,
            ).metadata.has_device(device_id) && old(self).in_one_shard(device_id, range) && old(
                self,
            ).storage_nodes.next_segment_id < u128::MAX && old(self).next_write_intent
                < u128::MAX,
            range.blocks.0 == 0 ==> (result matches Err(error) && error is InvalidArgument),
    {
        let bs: u64 = self.config.block_size as u64;
        if range.blocks.0 == 0 {
            return Err(StorageError::invalid_argument("block range must not be empty"));
        }
        let ghost blocks = self.metadata.blocks_of(device_id);
        let head = match self.metadata.device_heads.get(device_id.raw()) {
            Some(head) => head,
            None => return Err(StorageError::not_found("device", device_id.raw())),
        };
        assert(self.metadata.device_heads@.contains_key(device_id.0));
        let generation = head.generation;
        let (shard_id, old_root) = match single_shard_for_block_range(
            &self.metadata.trees,
            &head.shard_roots,
            range,
            bs,
            Ghost(blocks),
        ) {
            Ok(found) => found,
            Err(error) => {
                assert(range.end() > u64::MAX || !self.in_one_shard(device_id, range));
                return Err(error);
            },
        };
        proof {
            let covered = self.nodes()[old_root.0].covered_range;
            assert(self.nodes().contains_key(old_root.0));
            assert(crate::tree::node_wf(self.nodes(), old_root.0, bs));
            assert(range.blocks.0 * bs <= u64::MAX && range.end() <= u64::MAX) by (nonlinear_arith)
                requires
                    range.end() <= covered.end(),
                    covered.end() * bs <= u64::MAX,
                    range.end() == range.start.0 + range.blocks.0,
                    bs >= 1,
            ;
            let s = shard_id.0 as int;
            assert(self.metadata.roots_of(device_id)[s] == old_root);
        }
        let max_bytes: u64 = range.blocks.0 * bs;
        let (storage_node, segment_id, write_intent) = match self.place_grant() {
            Ok(placed) => placed,
            Err(error) => return Err(error),
        };
        proof {
            assert(max_bytes > 0) by (nonlinear_arith)
                requires
                    max_bytes == range.blocks.0 * bs,
                    range.blocks.0 > 0,
                    bs > 0,
            ;
        }
        self.issue_write_grant(
            WriteGrantRequest {
                tenant: TenantId(LOCAL_TENANT),
                principal: PrincipalId(LOCAL_PRINCIPAL),
                intent: WriteGrantIntent::BlockWrite {
                    device_id,
                    range,
                    fence: generation,
                    shard_id,
                    old_root,
                },
                write_intent,
                segment_id,
                storage_node,
                max_bytes,
                payload_integrity: PayloadIntegrity::Verified,
                durability,
                expires_at: LogicalDeadline(LOCAL_GRANT_EXPIRATION),
            },
        )
    }

    /// Stores a segment under a grant.
    pub fn write_granted_segment(&mut self, grant: &WriteGrant, data: Vec<u8>) -> (result: Result<
        SegmentWriteReceipt,
        StorageError,
    >)
        requires
            old(self).wf(),
        ensures
            final(self).wf(),
            final(self).same_metadata(old(self)),
            keeps_segments(old(self).segments(), final(self).segments()),
            result is Ok <==> old(self).storage_nodes.takes_write(*grant, data@.len() as int),
            result matches Ok(receipt) ==> receipt == receipt_for(
                *grant,
                data@.len() as u64,
                blocks_covering(data@.len() as int, old(self).block_size() as int) as u64,
                payload_integrity_of(grant.request.payload_integrity, data@),
                old(self).storage_nodes.next_offset,
            ),
            result matches Ok(receipt) ==> (old(self).grant_is_current(*grant, data@.len() as int)
                ==> final(self).takes_block_receipt(*grant, receipt)),
            result matches Ok(receipt) ==> (old(self).native_grant_is_current(
                *grant,
                data@.len() as int,
            ) ==> final(self).takes_native_receipt(*grant, receipt)),
            result matches Ok(receipt) ==> receipt_matches(*grant, receipt) && receipt.bytes
                == data@.len() && !old(self).segments().contains_key(receipt.segment_id.0)
                && final(self).segments().contains_key(receipt.segment_id.0)
                && final(self).segments()[receipt.segment_id.0].bytes@ == data@
                && final(self).segments()[receipt.segment_id.0].entry.receipt == Some(receipt)
                && final(self).segments()[receipt.segment_id.0].entry.state
                == SegmentLifecycleState::DurablePendingMetadata,
            result matches Ok(receipt) ==> final(self).segments().remove(receipt.segment_id.0)
                == old(self).segments() && final(self).observability.counters == counted(
                old(self).observability.counters,
                StorageEventKind::ReceiptVerified,
            ),
            final(self).storage_nodes.node_ids@ == old(self).storage_nodes.node_ids@,
            final(self).moved_within(old(self), data@.len() as int),
            result is Err ==> *final(self) == *old(self),
            whole_blocks(old(self).segments(), old(self).block_size()) && data@.len() as int % old(
                self,
            ).block_size() as int == 0 ==> whole_blocks(
                final(self).segments(),
                final(self).block_size(),
            ),
            result is Err ==> final(self).segments() == old(self).segments(),
    {
        let ghost before = *self;
        let bs: u64 = self.config.block_size as u64;
        let written = self.storage_nodes.write_segment(grant, data, bs);
        match written {
            Ok(receipt) => {
                proof {
                    lemma_tree_backed_kept(self.nodes(), before.segments(), self.segments());
                    assert forall|id: u128| whole_blocks(before.segments(), bs) && data@.len() as int
                        % bs as int == 0 && #[trigger] self.segments().contains_key(id) implies
                        self.segments()[id].bytes@.len() as int % bs as int == 0 by {
                        if id != receipt.segment_id.0 {
                            assert(self.segments().remove(receipt.segment_id.0).contains_key(id));
                            assert(before.segments().contains_key(id));
                        }
                    }
                    assert(!before.segments().contains_key(receipt.segment_id.0));
                    if before.grant_is_current(*grant, data@.len() as int) {
                        lemma_whole_cover(data@.len() as int, bs as int);
                        if let WriteGrantIntent::BlockWrite { device_id, range, old_root, .. } =
                            grant.request.intent {
                            assert(before.metadata.device_heads@.contains_key(device_id.0));
                            vstd::arithmetic::div_mod::lemma_mod_multiples_basic(
                                range.blocks.0 as int,
                                bs as int,
                            );
                            vstd::arithmetic::div_mod::lemma_div_by_multiple(
                                range.blocks.0 as int,
                                bs as int,
                            );
                            assert(receipt.descriptor.blocks.0 == range.blocks.0);
                            assert(receipt.owner == MappingOwner::BlockDevice(device_id));
                        }
                    }
                    if before.native_grant_is_current(*grant, data@.len() as int) {
                        lemma_native_receipt_taken(before, *self, *grant, receipt);
                    }
                }
                self.record_event(
                    StorageEventKind::ReceiptVerified,
                    Some(receipt.storage_node),
                    Some(receipt.segment_id),
                    None,
                );
                Ok(receipt)
            },
            Err(error) => Err(error),
        }
    }

    /// The storage node that a grant leads to.
    pub fn storage_node_transport_for_grant(&self, grant: &WriteGrant) -> (result: Result<
        StorageNodeId,
        StorageError,
    >)
        ensures
            result is Ok <==> grant == grant_for(grant.request) && grant.request.max_bytes > 0
                && self.storage_nodes.has_node(grant.request.storage_node),
            result matches Ok(storage_node) ==> storage_node == grant.request.storage_node,
            result matches Err(error) ==> error is Conflict || error == (StorageError::NotFound {
                kind: "storage_node",
                id: grant.request.storage_node.0,
            }),
    {
        match verify_write_grant(
            grant,
            grant.request.storage_node,
            grant.request.segment_id,
            grant.request.max_bytes,
        ) {
            Ok(()) => {},
            Err(error) => return Err(error),
        }
        if !self.storage_nodes.contains_node(grant.request.storage_node) {
            return Err(
                StorageError::not_found("storage_node", grant.request.storage_node.raw()),
            );
        }
        Ok(grant.request.storage_node)
    }

    /// Checks a receipt and hands back what it vouches for.
    pub fn verify_segment_receipt(&mut self, receipt: &SegmentWriteReceipt) -> (result: Result<
        VerifiedSegmentReceipt,
        StorageError,
    >)
        requires
            old(self).wf(),
        ensures
            final(self).wf(),
            *final(self) == (LocalCoordinator {
                observability: final(self).observability,
                ..*old(self)
            }),
            final(self).observability.counters == counted(
                old(self).observability.counters,
                if receipt_valid(*receipt) {
                    StorageEventKind::ReceiptVerified
                } else {
                    StorageEventKind::ReceiptRejected
                },
            ),
            result is Ok <==> receipt_valid(*receipt),
            result matches Ok(verified) ==> verified.descriptor == receipt.descriptor,
            result matches Err(error) ==> error is Corrupt,
    {
        let verified = verify_segment_receipt(receipt);
        let kind = match verified {
            Ok(()) => StorageEventKind::ReceiptVerified,
            Err(_) => StorageEventKind::ReceiptRejected,
        };
        self.record_event(kind, Some(receipt.storage_node), Some(receipt.segment_id), None);
        match verified {
            Ok(()) => Ok(VerifiedSegmentReceipt { descriptor: receipt.descriptor }),
            Err(error) => Err(error),
        }
    }

    pub(crate) fn verify_receipt_matches_grant_observed(
        &mut self,
        grant: &WriteGrant,
        receipt: &SegmentWriteReceipt,
    ) -> (result: Result<(), StorageError>)
        requires
            old(self).wf(),
        ensures
            final(self).wf(),
            *final(self) == (LocalCoordinator {
                observability: final(self).observability,
                ..*old(self)
            }),
            final(self).observability.counters == counted(
                old(self).observability.counters,
                if receipt_matches(*grant, *receipt) {
                    StorageEventKind::ReceiptVerified
                } else {
                    StorageEventKind::ReceiptRejected
                },
            ),
            result is Ok <==> receipt_matches(*grant, *receipt),
            result matches Err(error) ==> error is Corrupt,
    {
        let verified = verify_receipt_matches_grant(grant, receipt);
        let kind = match verified {
            Ok(()) => StorageEventKind::ReceiptVerified,
            Err(_) => StorageEventKind::ReceiptRejected,
        };
        self.record_event(kind, Some(receipt.storage_node), Some(receipt.segment_id), None);
        verified
    }

    /// The change of a tree that a block receipt stands for.
    pub open spec fn receipt_edit(range: BlockRange, segment_id: SegmentId) -> TreeRangeEdit {
        TreeRangeEdit {
            range,
            replacement: Some(SegmentReplacement { segment_id, segment_base: range.start }),
        }
    }

    /// Whether a grant for blocks was issued for the device as it is, and bytes
    /// fill its range.
    pub open spec fn grant_is_current(&self, grant: WriteGrant, len: int) -> bool {
        grant.request.intent matches WriteGrantIntent::BlockWrite {
            device_id,
            range,
            fence,
            shard_id,
            old_root,
        } && {
            &&& self.metadata.has_device(device_id)
            &&& self.metadata.device_heads@[device_id.0].generation == fence
            &&& shard_id.0 < self.metadata.roots_of(device_id).len()
            &&& self.metadata.roots_of(device_id)[shard_id.0 as int] == old_root
            &&& range.blocks.0 > 0
            &&& self.nodes()[old_root.0].covered_range.start.0 <= range.start.0
            &&& range.end() <= self.nodes()[old_root.0].covered_range.end()
            &&& len == range.blocks.0 * self.block_size()
        }
    }

    /// Whether a grant for a file was issued for the file as it is, and bytes
    /// fill the blocks that its range touches.
    pub open spec fn native_grant_is_current(&self, grant: WriteGrant, len: int) -> bool {
        grant.request.intent matches WriteGrantIntent::NativeWrite {
            keyspace_id,
            file_id,
            range,
            base_version,
        } && {
            &&& self.metadata.has_file(keyspace_id, file_id)
            &&& self.metadata.file_head(keyspace_id, file_id)->0.version == base_version
            &&& range.len > 0
            &&& range.end() <= self.file_limit(keyspace_id, file_id)
            &&& len == LocalCoordinator::blocks_touched(range, self.block_size()).blocks.0
                * self.block_size()
        }
    }

    /// Whether a receipt for a file can be published.
    pub open spec fn takes_native_receipt(
        &self,
        grant: WriteGrant,
        receipt: SegmentWriteReceipt,
    ) -> bool {
        &&& receipt_matches(grant, receipt)
        &&& receipt.intent matches WriteGrantIntent::NativeWrite {
            keyspace_id,
            file_id,
            range,
            base_version,
        } && {
            &&& receipt.owner == MappingOwner::NativeKeyspace(keyspace_id)
            &&& range.end() <= u64::MAX
            &&& self.takes_file_edits(
                keyspace_id,
                file_id,
                base_version,
                if range.end() > self.file_size(keyspace_id, file_id) {
                    range.end() as u64
                } else {
                    self.file_size(keyspace_id, file_id) as u64
                },
                seq![
                    NativeFileReceiptEdit {
                        range: LocalCoordinator::blocks_touched(range, self.block_size()),
                        receipt,
                    },
                ],
            )
        }
    }

    /// Whether a block receipt can be published.
    pub open spec fn takes_block_receipt(
        &self,
        grant: WriteGrant,
        receipt: SegmentWriteReceipt,
    ) -> bool {
        &&& receipt_matches(grant, receipt)
        &&& receipt.intent matches WriteGrantIntent::BlockWrite {
            device_id,
            range,
            fence,
            shard_id,
            old_root,
        } && {
            &&& receipt.owner == MappingOwner::BlockDevice(device_id)
            &&& self.metadata.has_device(device_id)
            &&& self.metadata.device_heads@[device_id.0].generation == fence
            &&& shard_id.0 < self.metadata.roots_of(device_id).len()
            &&& self.metadata.roots_of(device_id)[shard_id.0 as int] == old_root
            &&& range.blocks.0 > 0
            &&& self.nodes()[old_root.0].covered_range.start.0 <= range.start.0
            &&& range.end() <= self.nodes()[old_root.0].covered_range.end()
            &&& LocalCoordinator::receipt_edit(range, receipt.segment_id).backed(self.segments())
            &&& self.segments()[receipt.segment_id.0].entry.receipt == Some(receipt)
            &&& self.segments()[receipt.segment_id.0].entry.state
                == SegmentLifecycleState::DurablePendingMetadata
                || self.segments()[receipt.segment_id.0].entry.state
                == SegmentLifecycleState::Referenced
        }
    }

    /// Whether a receipt is for a shard that a device has.
    pub open spec fn receipt_names_shard(&self, receipt: SegmentWriteReceipt) -> bool {
        receipt.intent matches WriteGrantIntent::BlockWrite { device_id, shard_id, .. } && {
            &&& receipt.owner == MappingOwner::BlockDevice(device_id)
            &&& self.metadata.has_device(device_id)
            &&& shard_id.0 < self.metadata.roots_of(device_id).len()
        }
    }

    /// Whether a shard has another root than when the grant of a receipt was
    /// issued.
    pub open spec fn receipt_root_moved(&self, receipt: SegmentWriteReceipt) -> bool {
        receipt.intent matches WriteGrantIntent::BlockWrite { device_id, shard_id, old_root, .. }
            && self.metadata.roots_of(device_id)[shard_id.0 as int] != old_root
    }

    /// Whether nothing has changed a receipt's shard since its grant was issued.
    pub open spec fn receipt_is_current(&self, receipt: SegmentWriteReceipt) -> bool {
        receipt.intent matches WriteGrantIntent::BlockWrite {
            device_id,
            fence,
            shard_id,
            old_root,
            ..
        } && {
            &&& shard_id.0 < self.metadata.roots_of(device_id).len()
            &&& self.metadata.roots_of(device_id)[shard_id.0 as int] == old_root
            &&& self.metadata.device_heads@[device_id.0].generation == fence
        }
    }

    /// Whether a receipt's range lies in the shard that it is for, and its
    /// segment is stored and can be referred to.
    pub open spec fn receipt_fits(&self, receipt: SegmentWriteReceipt) -> bool {
        receipt.intent matches WriteGrantIntent::BlockWrite { range, old_root, .. } && {
            &&& range.blocks.0 > 0
            &&& self.nodes()[old_root.0].covered_range.start.0 <= range.start.0
            &&& range.end() <= self.nodes()[old_root.0].covered_range.end()
            &&& LocalCoordinator::receipt_edit(range, receipt.segment_id).backed(self.segments())
            &&& self.segments()[receipt.segment_id.0].entry.receipt == Some(receipt)
            &&& self.segments()[receipt.segment_id.0].entry.state
                == SegmentLifecycleState::DurablePendingMetadata
                || self.segments()[receipt.segment_id.0].entry.state
                == SegmentLifecycleState::Referenced
        }
    }

    /// Publishes a segment that was stored under a grant for blocks.
    #[verifier::rlimit(100)]
    #[verifier::spinoff_prover]
    pub fn submit_block_write_receipt(
        &mut self,
        grant: &WriteGrant,
        receipt: SegmentWriteReceipt,
    ) -> (result: Result<WriteCommit, StorageError>)
        requires
            old(self).wf(),
        ensures
            final(self).wf(),
            final(self).keeps_store(old(self)),
            keeps_segments(final(self).segments(), old(self).segments()),
            result matches Ok(commit) ==> receipt_matches(*grant, receipt) && (
            receipt.intent matches WriteGrantIntent::BlockWrite { device_id, range, .. } && {
                &&& receipt.owner == MappingOwner::BlockDevice(device_id)
                &&& old(self).metadata.has_device(device_id)
                &&& old(self).receipt_is_current(receipt)
                &&& final(self).only_device_changed(old(self), device_id)
                &&& old(self).segments()[receipt.segment_id.0].bytes@.len() == range.blocks.0
                    * old(self).block_size() ==> final(self).write_applied(
                    old(self),
                    device_id,
                    (range.start.0 * old(self).block_size()) as u64,
                    old(self).segments()[receipt.segment_id.0].bytes@,
                )
                &&& device_block_at(
                    old(self).nodes(),
                    old(self).metadata.roots_of(device_id),
                    range.start.0 as int,
                ) != LocalCoordinator::receipt_edit(range, receipt.segment_id).value_at(
                    range.start.0 as int,
                ) ==> !final(self).receipt_is_current(receipt) && final(self).receipt_names_shard(
                    receipt,
                ) && final(self).receipt_root_moved(receipt)
                    && final(self).metadata.block_commit_recorded(
                    &old(self).metadata,
                    device_id,
                    commit.commit_seq,
                ) && commit.commit_seq.0 == old(self).metadata.next_commit_seq
                &&& final(self).device_edited(
                    old(self),
                    device_id,
                    seq![LocalCoordinator::receipt_edit(range, receipt.segment_id)],
                )
                &&& commit == (WriteCommit {
                    device_id,
                    commit_seq: final(self).metadata.device_heads@[device_id.0].latest_commit,
                    range: ByteRange {
                        offset: (range.start.0 * old(self).block_size()) as u64,
                        len: (range.blocks.0 * old(self).block_size()) as u64,
                    },
                    durability: receipt.durability,
                })
            }),
            result is Ok ==> segments_marked(
                old(self).segments(),
                final(self).segments(),
                seq![receipt],
            ) && final(self).segments()[receipt.segment_id.0].entry.state
                == SegmentLifecycleState::Referenced
                && final(self).segments()[receipt.segment_id.0].entry.receipt == Some(receipt),
            result is Ok ==> write_counted(
                old(self).observability.counters,
                final(self).observability.counters,
                final(self).metadata != old(self).metadata,
            ),
            old(self).takes_block_receipt(*grant, receipt) && old(self).room_for(0) ==> result is Ok,
            final(self).moved_within(old(self), 0),
            receipt_matches(*grant, receipt) && old(self).receipt_names_shard(receipt) && !old(
                self,
            ).receipt_is_current(receipt) && (old(self).receipt_root_moved(receipt) || (
            old(self).receipt_fits(receipt) && old(self).room_for(0))) ==> (
            result matches Err(error) && error is Conflict)
                && final(self).metadata.device_heads == old(self).metadata.device_heads
                && final(self).storage_nodes == old(self).storage_nodes,
            receipt_matches(*grant, receipt) && old(self).receipt_names_shard(receipt) && old(
                self,
            ).receipt_root_moved(receipt) ==> final(self).metadata == old(self).metadata,
            result is Err && old(self).receipt_fits(receipt)
                ==> final(self).metadata.device_heads == old(self).metadata.device_heads,
            !receipt_matches(*grant, receipt) ==> (result matches Err(error) && error is Corrupt),
            receipt_matches(*grant, receipt) && !(receipt.intent is BlockWrite) ==> (
            result matches Err(error) && error is InvalidArgument),
            final(self).metadata.device_heads@.dom() == old(self).metadata.device_heads@.dom(),
    {
        let ghost before = *self;
        let bs: u64 = self.config.block_size as u64;
        self.record_event(StorageEventKind::CoordinatorWriteStarted, None, None, None);
        match self.verify_receipt_matches_grant_observed(grant, &receipt) {
            Ok(()) => {},
            Err(error) => return Err(error),
        }
        let (device_id, range, fence, shard_id, old_root) = match receipt.intent {
            WriteGrantIntent::BlockWrite { device_id, range, fence, shard_id, old_root } => (
                device_id,
                range,
                fence,
                shard_id,
                old_root,
            ),
            _ => return Err(
                StorageError::invalid_argument(
                    "trusted block publish requires a block write receipt",
                ),
            ),
        };
        let owned = match receipt.owner {
            MappingOwner::BlockDevice(owner) => owner.0 == device_id.0,
            _ => false,
        };
        if !owned {
            return Err(
                StorageError::conflict("receipt owner does not match block device intent"),
            );
        }
        let shard: usize = shard_id.0 as usize;
        let head = match self.metadata.device_heads.get(device_id.raw()) {
            Some(head) => head,
            None => return Err(StorageError::not_found("device", device_id.raw())),
        };
        assert(self.metadata.device_heads@.contains_key(device_id.0));
        if shard >= head.shard_roots.len() {
            return Err(StorageError::invalid_argument("receipt shard is outside device"));
        }
        if head.shard_roots[shard].0 != old_root.0 {
            return Err(StorageError::conflict("stale shard root"));
        }
        let ghost roots = before.metadata.roots_of(device_id);
        assert(self.nodes().contains_key(old_root.0)) by {
            assert(roots[shard as int] == old_root);
        }
        assert(crate::tree::node_wf(self.nodes(), old_root.0, bs));
        let covered = match self.metadata.trees.nodes.get(old_root.raw()) {
            Some(node) => node.covered_range,
            None => return Err(StorageError::not_found("metadata_node", old_root.raw())),
        };
        proof {
            assert(covered.end() <= u64::MAX) by (nonlinear_arith)
                requires
                    covered.end() * bs <= u64::MAX,
                    bs >= 1,
                    covered.end() >= 0,
            ;
        }
        if range.blocks.0 == 0 {
            return Err(StorageError::invalid_argument("tree edit range must not be empty"));
        }
        match covered.contains_range(range) {
            Ok(inside) => {
                if !inside {
                    return Err(StorageError::invalid_argument("tree edit is outside the tree"));
                }
            },
            Err(error) => {
                return Err(error);
            },
        }
        let mut edits: Vec<TreeRangeEdit> = Vec::new();
        edits.push(
            TreeRangeEdit {
                range,
                replacement: Some(
                    SegmentReplacement {
                        segment_id: receipt.segment_id,
                        segment_base: range.start,
                    },
                ),
            },
        );
        let ghost the_edit = LocalCoordinator::receipt_edit(range, receipt.segment_id);
        proof {
            assert(edits@ =~= seq![the_edit]);
            assert(edits_in_shards(self.nodes(), roots, edits@)) by {
                assert(roots[shard as int] == old_root);
            }
            assert(the_edit.backed(self.segments()) ==> edits_backed(edits@, self.segments()));
            assert(range.start.0 * bs <= u64::MAX && range.blocks.0 * bs <= u64::MAX)
                by (nonlinear_arith)
                requires
                    range.end() <= covered.end(),
                    covered.end() * bs <= u64::MAX,
                    range.end() == range.start.0 + range.blocks.0,
            ;
        }
        let ghost middle = *self;
        let published = self.publish_device_edits(device_id, fence, &edits, false);
        let ghost published_state = *self;
        proof {
            assert forall|other: DeviceId| other != device_id implies #[trigger] self.device_kept(
                &before,
                other,
            ) by {
                assert(self.device_kept(&middle, other));
            }
        }
        let seq = match published {
            Ok(Some(seq)) => seq,
            Ok(None) => match self.device_info(device_id) {
                Ok(info) => {
                    if info.generation.0 != fence.0 {
                        return Err(StorageError::conflict("stale device generation"));
                    }
                    info.latest_commit
                },
                Err(error) => return Err(error),
            },
            Err(error) => return Err(error),
        };
        let mut receipts: Vec<SegmentWriteReceipt> = Vec::new();
        receipts.push(receipt);
        match self.mark_receipts_referenced(&receipts, seq) {
            Ok(()) => {},
            Err(error) => {
                assert(!before.takes_block_receipt(*grant, receipt)) by {
                    if before.takes_block_receipt(*grant, receipt) {
                        assert(crate::block_commit::receipts_usable(
                            published_state.segments(),
                            receipts@,
                        ));
                    }
                }
                assert(!before.receipt_fits(receipt)) by {
                    if before.receipt_fits(receipt) {
                        assert(crate::block_commit::receipts_usable(
                            published_state.segments(),
                            receipts@,
                        ));
                    }
                }
                return Err(error);
            },
        }
        proof {
            assert forall|other: DeviceId| other != device_id implies #[trigger] self.device_kept(
                &before,
                other,
            ) by {
                assert(published_state.device_kept(&before, other));
            }
            assert forall|id: u128| whole_blocks(before.segments(), bs)
                && #[trigger] self.segments().contains_key(id) implies self.segments()[id].bytes@.len()
                as int % bs as int == 0 by {
                assert(before.segments().contains_key(id));
            }
            let offset = (range.start.0 * bs) as u64;
            assert(receipts@[0] == receipt);
            assert(self.segments().contains_key(receipt.segment_id.0));
            assert(before.segments().contains_key(receipt.segment_id.0));
            let data = before.segments()[receipt.segment_id.0].bytes@;
            assert(range.end() * bs == range.start.0 * bs + range.blocks.0 * bs)
                by (nonlinear_arith)
                requires
                    range.end() == range.start.0 + range.blocks.0,
            ;
            if data.len() == range.blocks.0 * bs {
                assert forall|byte: int|
                    0 <= byte < before.device_bytes(device_id) implies #[trigger] self.device_byte(
                    device_id,
                    byte,
                ) == (if offset <= byte < offset + data.len() {
                    data[byte - offset]
                } else {
                    before.device_byte(device_id, byte)
                }) by {
                    lemma_receipt_byte(before, *self, device_id, range, receipt.segment_id, byte);
                }
            }
            assert(receipts@ =~= seq![receipt]);
            lemma_root_moved(before, *self, device_id, shard as int, the_edit);
        }
        Ok(
            WriteCommit {
                device_id,
                commit_seq: seq,
                range: ByteRange { offset: range.start.0 * bs, len: range.blocks.0 * bs },
                durability: receipt.durability,
            },
        )
    }
}

/// Whole blocks are covered by as many blocks.
proof fn lemma_whole_cover(bytes: int, block_size: int)
    requires
        block_size > 0,
        bytes >= 0,
    ensures
        blocks_covering(bytes, block_size) * block_size >= bytes,
        bytes % block_size == 0 ==> blocks_covering(bytes, block_size) == bytes / block_size,
{
    vstd::arithmetic::div_mod::lemma_fundamental_div_mod(bytes + block_size - 1, block_size);
    vstd::arithmetic::div_mod::lemma_fundamental_div_mod(bytes, block_size);
    let (q, r) = (
        (bytes + block_size - 1) / block_size,
        (bytes + block_size - 1) % block_size,
    );
    assert(q * block_size >= bytes) by (nonlinear_arith)
        requires
            bytes + block_size - 1 == block_size * q + r,
            0 <= r < block_size,
    ;
    if bytes % block_size == 0 {
        let m = bytes / block_size;
        assert(q == m) by (nonlinear_arith)
            requires
                bytes + block_size - 1 == block_size * q + r,
                0 <= r < block_size,
                bytes == block_size * m,
        ;
    }
}

/// A segment that was stored under a grant for a file that nothing has changed
/// since can be published.
proof fn lemma_native_receipt_taken(
    before: LocalCoordinator,
    after: LocalCoordinator,
    grant: WriteGrant,
    receipt: SegmentWriteReceipt,
)
    requires
        before.wf(),
        after.metadata == before.metadata,
        after.config == before.config,
        receipt_matches(grant, receipt),
        receipt.owner == intent_owner(grant.request.intent),
        before.native_grant_is_current(grant, receipt.bytes as int),
        receipt.descriptor.bytes == receipt.bytes,
        receipt.descriptor.segment_id == receipt.segment_id,
        receipt.descriptor.blocks.0 == blocks_covering(
            receipt.bytes as int,
            before.block_size() as int,
        ),
        after.segments().contains_key(receipt.segment_id.0),
        after.segments()[receipt.segment_id.0].entry.receipt == Some(receipt),
        after.segments()[receipt.segment_id.0].entry.state
            == SegmentLifecycleState::DurablePendingMetadata,
    ensures
        after.takes_native_receipt(grant, receipt),
{
    let bs = before.block_size();
    if let WriteGrantIntent::NativeWrite { keyspace_id, file_id, range, base_version } =
        grant.request.intent {
        before.metadata.lemma_file_wf(keyspace_id, file_id, bs);
        let head = before.metadata.file_head(keyspace_id, file_id)->0;
        let covered = before.nodes()[head.root.0].covered_range;
        assert(crate::tree::node_wf(before.nodes(), head.root.0, bs));
        let touched = LocalCoordinator::blocks_touched(range, bs);
        let edit = NativeFileReceiptEdit { range: touched, receipt };
        let first = range.offset as int / bs as int;
        let span = range.end() - first * bs;
        crate::file_groups::lemma_round(range.offset as int, bs as int);
        lemma_whole_cover(span, bs as int);
        vstd::arithmetic::div_mod::lemma_fundamental_div_mod(span + bs - 1, bs as int);
        let count = blocks_covering(span, bs as int);
        let end = covered.end();
        assert(count > 0) by (nonlinear_arith)
            requires
                count * bs >= span,
                span > 0,
                bs > 0,
        ;
        assert(first + count <= end) by (nonlinear_arith)
            requires
                count == (span + bs - 1) / (bs as int),
                span == range.end() - first * bs,
                range.end() <= end * bs,
                bs > 0,
        ;
        assert(end <= u64::MAX) by (nonlinear_arith)
            requires
                end * bs <= u64::MAX,
                bs >= 1,
                end >= 0,
        ;
        assert(touched.start.0 == first && touched.blocks.0 == count);
        assert(count * bs == receipt.bytes);
        vstd::arithmetic::div_mod::lemma_mod_multiples_basic(count, bs as int);
        vstd::arithmetic::div_mod::lemma_div_by_multiple(count, bs as int);
        lemma_whole_cover(receipt.bytes as int, bs as int);
        let edits = seq![edit];
        assert(receipt_edits(edits) =~= seq![receipt_edit_of(edit)]);
        assert(receipts_of(edits) =~= seq![receipt]);
        assert(edits[0] == edit);
    }
}

/// A byte of a device after a segment was put in a range of its blocks.
proof fn lemma_receipt_byte(
    before: LocalCoordinator,
    after: LocalCoordinator,
    device_id: DeviceId,
    range: BlockRange,
    segment_id: SegmentId,
    byte: int,
)
    requires
        before.wf(),
        before.metadata.has_device(device_id),
        after.config == before.config,
        keeps_segments(before.segments(), after.segments()),
        before.segments().contains_key(segment_id.0),
        after.device_edited(
            &before,
            device_id,
            seq![LocalCoordinator::receipt_edit(range, segment_id)],
        ),
        0 <= byte < before.device_bytes(device_id),
    ensures
        after.device_byte(device_id, byte) == if range.start.0 * before.block_size() <= byte
            < range.end() * before.block_size() {
            before.segments()[segment_id.0].bytes@[byte - range.start.0 * before.block_size()]
        } else {
            before.device_byte(device_id, byte)
        },
{
    let bs = before.block_size();
    let b = bs as int;
    let block = byte / b;
    let edit = LocalCoordinator::receipt_edit(range, segment_id);
    let edits = seq![edit];
    let roots = before.metadata.roots_of(device_id);
    assert(before.metadata.device_heads@.contains_key(device_id.0));
    lemma_block_of_byte(byte, before.metadata.blocks_of(device_id), bs);
    let old_block = device_block_at(before.nodes(), roots, block);
    let new_block = device_block_at(after.nodes(), after.metadata.roots_of(device_id), block);
    assert(edit_outcome(edits, block, old_block, new_block));
    vstd::arithmetic::div_mod::lemma_fundamental_div_mod(byte, b);
    let start = range.start.0 as int;
    let end = range.end();
    assert(range.contains(block) <==> start * b <= byte < end * b) by (nonlinear_arith)
        requires
            byte == b * block + byte % b,
            0 <= byte % b < b,
            range.contains(block) == (start <= block && block < end),
    ;
    if range.contains(block) {
        assert(edits[0].range.contains(block));
        assert(new_block == edit.value_at(block));
        assert((block - start) * b + byte % b == byte - start * b) by (nonlinear_arith)
            requires
                byte == b * block + byte % b,
        ;
    } else {
        assert(!is_edited(edits, block));
        if old_block is Some {
            lemma_device_block_stored(before.nodes(), before.segments(), roots, block);
        }
        lemma_stored_byte_kept(before.segments(), after.segments(), old_block, bs, byte);
    }
}

/// A shard that got a segment which it did not have there has a new root.
proof fn lemma_root_moved(
    before: LocalCoordinator,
    after: LocalCoordinator,
    device_id: DeviceId,
    shard: int,
    edit: TreeRangeEdit,
)
    requires
        before.wf(),
        after.wf(),
        after.config == before.config,
        keeps_nodes(before.nodes(), after.nodes()),
        before.metadata.has_device(device_id),
        after.metadata.has_device(device_id),
        after.metadata.device_specs == before.metadata.device_specs,
        after.same_shards(&before, device_id),
        after.device_edited(&before, device_id, seq![edit]),
        0 <= shard < before.metadata.roots_of(device_id).len(),
        edit.range.blocks.0 > 0,
        before.nodes()[before.metadata.roots_of(device_id)[shard].0].covered_range.start.0
            <= edit.range.start.0,
        edit.range.end() <= before.nodes()[before.metadata.roots_of(
            device_id,
        )[shard].0].covered_range.end(),
    ensures
        device_block_at(
            before.nodes(),
            before.metadata.roots_of(device_id),
            edit.range.start.0 as int,
        ) != edit.value_at(edit.range.start.0 as int) ==> after.metadata.roots_of(device_id)[shard]
            != before.metadata.roots_of(device_id)[shard],
{
    let roots = before.metadata.roots_of(device_id);
    let new_roots = after.metadata.roots_of(device_id);
    let block = edit.range.start.0 as int;
    let blocks = before.metadata.blocks_of(device_id);
    let bs = before.block_size();
    assert(before.metadata.device_heads@.contains_key(device_id.0));
    assert(after.metadata.device_heads@.contains_key(device_id.0));
    assert(before.nodes().contains_key(roots[shard].0));
    lemma_shard_unique(before.nodes(), roots, blocks, shard, block);
    assert(after.nodes()[new_roots[shard].0].covered_range
        == before.nodes()[roots[shard].0].covered_range);
    lemma_shard_unique(after.nodes(), new_roots, blocks, shard, block);
    law_trees_are_immutable(before.nodes(), after.nodes(), bs, roots[shard].0);
    assert(edit_outcome(
        seq![edit],
        block,
        device_block_at(before.nodes(), roots, block),
        device_block_at(after.nodes(), new_roots, block),
    ));
    assert(seq![edit][0].range.contains(block));
}

} // verus!
