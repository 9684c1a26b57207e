//! What grants, receipts and checksums are for: a write that was allowed goes through
//! with its receipt, and what differs from what was allowed or stored is found out.
use vstd::prelude::*;

use crate::block_api::{PayloadIntegrity, ReadVerification};
use crate::checksum::law_changed_byte_changes_checksum;
use crate::grants::{
    WriteGrant, WriteGrantRequest, grant_allows, grant_for, intent_owner, receipt_for,
    receipt_matches, unproved,
};
use crate::id::{DeviceId, KeyspaceId, SegmentId, StorageNodeId};
use crate::integrity::{integrity_matches, payload_integrity_of, policy_allows};
use crate::metadata_records::{MappingOwner, SegmentPayloadIntegrity};
use crate::segment_records::{ProofTag, SegmentWriteReceipt, WriteGrantIntent};

verus! {

/// A payload that was stored under a checksum is known again, and with one byte
/// changed it is not; one that was stored without is taken as it comes.
pub proof fn law_changed_payload_is_found_out(bytes: Seq<u8>, at: int, byte: u8)
    requires
        0 <= at < bytes.len(),
        bytes[at] != byte,
    ensures
        integrity_matches(payload_integrity_of(PayloadIntegrity::Verified, bytes), bytes),
        !integrity_matches(
            payload_integrity_of(PayloadIntegrity::Verified, bytes),
            bytes.update(at, byte),
        ),
        integrity_matches(
            payload_integrity_of(PayloadIntegrity::Unchecked, bytes),
            bytes.update(at, byte),
        ),
{
    law_changed_byte_changes_checksum(bytes, at, byte);
}

/// A read that asks for verified bytes gets those that were stored under a checksum
/// and no others; any other read gets both.
pub proof fn law_verified_reads_want_a_checksum(bytes: Seq<u8>, verification: ReadVerification)
    ensures
        policy_allows(payload_integrity_of(PayloadIntegrity::Verified, bytes), verification),
        policy_allows(payload_integrity_of(PayloadIntegrity::Unchecked, bytes), verification)
            <==> verification != ReadVerification::RequireVerified,
{
}

/// A grant lets through the write that it was issued for, up to the bytes that were
/// asked for, and none to another node or segment, without bytes or with more.
pub proof fn law_grant_is_for_one_write(
    request: WriteGrantRequest,
    storage_node: StorageNodeId,
    segment_id: SegmentId,
    bytes: int,
)
    ensures
        grant_allows(grant_for(request), storage_node, segment_id, bytes) <==> storage_node
            == request.storage_node && segment_id == request.segment_id && bytes > 0 && bytes
            <= request.max_bytes,
{
}

/// A grant that was changed after it was issued lets nothing through, unless its
/// hash and its number are those of what it now says.
pub proof fn law_changed_grant_lets_nothing_through(
    grant: WriteGrant,
    storage_node: StorageNodeId,
    segment_id: SegmentId,
    bytes: int,
)
    requires
        grant.hash != grant.request.hash() || grant.grant_id.0 != grant.request.segment_id.0,
    ensures
        !grant_allows(grant, storage_node, segment_id, bytes),
{
}

/// All that a request says goes into its hash: requests that hash the same fields
/// are the same.
pub proof fn law_all_of_a_request_is_hashed(request: WriteGrantRequest, other: WriteGrantRequest)
    requires
        request.fields() == other.fields(),
    ensures
        request == other,
{
}

/// The receipt of a write that a grant allowed is taken for that grant.
pub proof fn law_receipt_of_an_allowed_write_is_taken(
    request: WriteGrantRequest,
    bytes: u64,
    blocks: u64,
    integrity: SegmentPayloadIntegrity,
    offset: u64,
)
    requires
        0 < bytes <= request.max_bytes,
    ensures
        receipt_matches(
            grant_for(request),
            receipt_for(grant_for(request), bytes, blocks, integrity, offset),
        ),
        receipt_for(grant_for(request), bytes, blocks, integrity, offset).bytes == bytes,
        receipt_for(grant_for(request), bytes, blocks, integrity, offset).integrity == integrity,
        receipt_for(grant_for(request), bytes, blocks, integrity, offset).placement.offset
            == offset,
        receipt_for(grant_for(request), bytes, blocks, integrity, offset).descriptor.blocks.0
            == blocks,
{
    let receipt = receipt_for(grant_for(request), bytes, blocks, integrity, offset);
    assert(unproved(receipt) == unproved(
        SegmentWriteReceipt { proof: ProofTag { high: 0, low: 0 }, ..receipt },
    ));
}

/// A receipt that is taken for a grant says of the write what the grant said: who
/// writes what for which intent, where, how safely and up to how much; and it agrees
/// with itself.
pub proof fn law_receipt_says_what_was_granted(grant: WriteGrant, receipt: SegmentWriteReceipt)
    requires
        receipt_matches(grant, receipt),
    ensures
        receipt.tenant == grant.request.tenant,
        receipt.principal == grant.request.principal,
        receipt.intent == grant.request.intent,
        receipt.write_intent == grant.request.write_intent,
        receipt.segment_id == grant.request.segment_id,
        receipt.storage_node == grant.request.storage_node,
        receipt.durability == grant.request.durability,
        receipt.grant_id == grant.grant_id,
        receipt.grant_hash == grant.hash,
        0 < receipt.bytes <= grant.request.max_bytes,
        receipt.descriptor.segment_id == receipt.segment_id,
        receipt.descriptor.bytes == receipt.bytes,
        receipt.descriptor.integrity == receipt.integrity,
        receipt.placement.segment_id == receipt.segment_id,
        receipt.placement.storage_node == receipt.storage_node,
        receipt.placement.bytes == receipt.bytes,
{
}

/// A receipt whose proof is not the one that belongs to it is not taken.
pub proof fn law_receipt_without_its_proof_is_not_taken(
    grant: WriteGrant,
    receipt: SegmentWriteReceipt,
    tag: ProofTag,
)
    requires
        receipt_matches(grant, receipt),
        tag != receipt.proof,
    ensures
        !receipt_matches(grant, (SegmentWriteReceipt { proof: tag, ..receipt })),
{
    let changed = SegmentWriteReceipt { proof: tag, ..receipt };
    assert(unproved(changed) == unproved(receipt));
}

/// A write is owned by the device or the keyspace that it is for.
pub proof fn law_writes_are_owned_by_what_they_are_for(
    intent: WriteGrantIntent,
    device_id: DeviceId,
    keyspace_id: KeyspaceId,
)
    ensures
        intent_owner(intent) == MappingOwner::BlockDevice(device_id) <==> (
        intent matches WriteGrantIntent::BlockWrite { device_id: named, .. } && named == device_id)
            || intent == (WriteGrantIntent::Internal {
            owner: MappingOwner::BlockDevice(device_id),
        }),
        intent_owner(intent) == MappingOwner::NativeKeyspace(keyspace_id) <==> (
        intent matches WriteGrantIntent::NativeWrite { keyspace_id: named, .. } && named
            == keyspace_id) || (
        intent matches WriteGrantIntent::NativeAppendStream { keyspace_id: named, .. } && named
            == keyspace_id) || intent == (WriteGrantIntent::Internal {
            owner: MappingOwner::NativeKeyspace(keyspace_id),
        }),
{
}

} // verus!
