//! Permissions to write segments and the receipts for segments written.
use vstd::prelude::*;

use crate::block_api::{PayloadIntegrity, WriteDurability};
use crate::checksum::{checksum, data_log_checksum};
use crate::codec::{encode_row, pair_wire, DurableEncode};
use crate::error::StorageError;
use crate::id::{
    BlockCount, GrantEpoch, GrantId, LogicalDeadline, PrincipalId, SegmentId, ServerIncarnation,
    StorageNodeId, StorageNodeKeyId, TenantId, WriteIntentId,
};
use crate::metadata_records::{MappingOwner, SegmentDescriptor, SegmentPayloadIntegrity};
use crate::segment_records::{
    GrantHash, ProofScheme, ProofTag, SegmentReceiptLifecycle, SegmentReplicaPlacement,
    SegmentWriteReceipt, WriteGrantIntent,
};

verus! {

/// The scope that a writer asks for.
#[derive(Clone, Copy, Debug, PartialEq, Eq, Structural)]
pub struct WriteGrantRequest {
    pub tenant: TenantId,
    pub principal: PrincipalId,
    pub intent: WriteGrantIntent,
    pub write_intent: WriteIntentId,
    pub segment_id: SegmentId,
    pub storage_node: StorageNodeId,
    pub max_bytes: u64,
    pub payload_integrity: PayloadIntegrity,
    pub durability: WriteDurability,
    pub expires_at: LogicalDeadline,
}

/// A permission to write one segment on one storage node.
#[derive(Clone, Copy, Debug, PartialEq, Eq, Structural)]
pub struct WriteGrant {
    pub grant_id: GrantId,
    pub request: WriteGrantRequest,
    pub hash: GrantHash,
}

impl WriteGrantRequest {
    /// The fields in the order in which they are hashed.
    pub open spec fn fields(self) -> (
        ((TenantId, PrincipalId), (WriteGrantIntent, WriteIntentId)),
        (((SegmentId, StorageNodeId), (u64, PayloadIntegrity)), (WriteDurability, LogicalDeadline)),
    ) {
        (
            ((self.tenant, self.principal), (self.intent, self.write_intent)),
            (
                (
                    (self.segment_id, self.storage_node),
                    (self.max_bytes, self.payload_integrity),
                ),
                (self.durability, self.expires_at),
            ),
        )
    }

    /// The hash that ties a grant to its scope.
    pub open spec fn hash(self) -> GrantHash {
        GrantHash { high: self.segment_id.0, low: checksum(self.fields().wire()) as u128 }
    }

    fn compute_hash(&self) -> (hash: GrantHash)
        ensures
            hash == self.hash(),
    {
        reveal(pair_wire);
        let fields = (
            ((self.tenant, self.principal), (self.intent, self.write_intent)),
            (
                (
                    (self.segment_id, self.storage_node),
                    (self.max_bytes, self.payload_integrity),
                ),
                (self.durability, self.expires_at),
            ),
        );
        match encode_row(&fields) {
            Ok(bytes) => GrantHash {
                high: self.segment_id.raw(),
                low: data_log_checksum(bytes.as_slice()) as u128,
            },
            Err(_) => GrantHash { high: 0, low: 0 },
        }
    }
}

/// Whom an intent writes for.
pub open spec fn intent_owner(intent: WriteGrantIntent) -> MappingOwner {
    match intent {
        WriteGrantIntent::BlockWrite { device_id, .. } => MappingOwner::BlockDevice(device_id),
        WriteGrantIntent::NativeWrite { keyspace_id, .. } => MappingOwner::NativeKeyspace(
            keyspace_id,
        ),
        WriteGrantIntent::NativeAppendStream { keyspace_id, .. } => MappingOwner::NativeKeyspace(
            keyspace_id,
        ),
        WriteGrantIntent::Internal { owner } => owner,
    }
}

pub fn owner_of_intent(intent: WriteGrantIntent) -> (owner: MappingOwner)
    ensures
        owner == intent_owner(intent),
{
    match intent {
        WriteGrantIntent::BlockWrite { device_id, .. } => MappingOwner::BlockDevice(device_id),
        WriteGrantIntent::NativeWrite { keyspace_id, .. } => MappingOwner::NativeKeyspace(
            keyspace_id,
        ),
        WriteGrantIntent::NativeAppendStream { keyspace_id, .. } => MappingOwner::NativeKeyspace(
            keyspace_id,
        ),
        WriteGrantIntent::Internal { owner } => owner,
    }
}

/// The grant for a request.
pub open spec fn grant_for(request: WriteGrantRequest) -> WriteGrant {
    WriteGrant { grant_id: GrantId(request.segment_id.0), request, hash: request.hash() }
}

/// Issues the grant for a request that asks for bytes.
pub fn issue_write_grant(request: WriteGrantRequest) -> (result: Result<WriteGrant, StorageError>)
    ensures
        result is Ok <==> request.max_bytes > 0,
        result matches Ok(grant) ==> grant == grant_for(request),
        result matches Err(error) ==> error is InvalidArgument,
{
    if request.max_bytes == 0 {
        return Err(StorageError::invalid_argument("write grant must allow bytes"));
    }
    Ok(
        WriteGrant {
            grant_id: GrantId(request.segment_id.raw()),
            request,
            hash: request.compute_hash(),
        },
    )
}

/// Whether a grant was issued as it stands and allows this write.
pub open spec fn grant_allows(
    grant: WriteGrant,
    storage_node: StorageNodeId,
    segment_id: SegmentId,
    bytes: int,
) -> bool {
    &&& grant == grant_for(grant.request)
    &&& grant.request.storage_node == storage_node
    &&& grant.request.segment_id == segment_id
    &&& 0 < bytes <= grant.request.max_bytes
}

pub fn verify_write_grant(
    grant: &WriteGrant,
    storage_node: StorageNodeId,
    segment_id: SegmentId,
    bytes: u64,
) -> (result: Result<(), StorageError>)
    ensures
        result is Ok <==> grant_allows(*grant, storage_node, segment_id, bytes as int),
        result matches Err(error) ==> error is Conflict,
{
    if grant.hash != grant.request.compute_hash() || grant.grant_id.raw()
        != grant.request.segment_id.raw() {
        return Err(StorageError::conflict("write grant was not issued as it stands"));
    }
    if grant.request.storage_node != storage_node || grant.request.segment_id != segment_id {
        return Err(StorageError::conflict("write grant is for another segment"));
    }
    if bytes == 0 || bytes > grant.request.max_bytes {
        return Err(StorageError::conflict("write grant does not allow this many bytes"));
    }
    Ok(())
}

/// A receipt without its proof.
pub open spec fn unproved(receipt: SegmentWriteReceipt) -> SegmentWriteReceipt {
    SegmentWriteReceipt { proof: ProofTag { high: 0, low: 0 }, ..receipt }
}

/// The proof that belongs to a receipt.
pub open spec fn proof_of(receipt: SegmentWriteReceipt) -> ProofTag {
    ProofTag { high: receipt.segment_id.0, low: checksum(unproved(receipt).wire()) as u128 }
}

fn compute_proof(receipt: &SegmentWriteReceipt) -> (tag: ProofTag)
    ensures
        tag == proof_of(*receipt),
{
    let mut plain = *receipt;
    plain.proof = ProofTag { high: 0, low: 0 };
    match encode_row(&plain) {
        Ok(bytes) => ProofTag {
            high: receipt.segment_id.raw(),
            low: data_log_checksum(bytes.as_slice()) as u128,
        },
        Err(_) => ProofTag { high: 0, low: 0 },
    }
}

/// Whether a receipt agrees with itself and carries its proof.
pub open spec fn receipt_valid(receipt: SegmentWriteReceipt) -> bool {
    &&& receipt.descriptor.segment_id == receipt.segment_id
    &&& receipt.placement.segment_id == receipt.segment_id
    &&& receipt.placement.storage_node == receipt.storage_node
    &&& receipt.descriptor.bytes == receipt.bytes
    &&& receipt.placement.bytes == receipt.bytes
    &&& receipt.descriptor.integrity == receipt.integrity
    &&& receipt.proof_scheme == ProofScheme::DeterministicTestMacV1
    &&& receipt.proof == proof_of(receipt)
}

/// Accepts exactly the receipts that agree with themselves and carry their
/// proof.
pub fn verify_segment_receipt(receipt: &SegmentWriteReceipt) -> (result: Result<(), StorageError>)
    ensures
        result is Ok <==> receipt_valid(*receipt),
        result matches Err(error) ==> error is Corrupt,
{
    if receipt.descriptor.segment_id != receipt.segment_id || receipt.placement.segment_id
        != receipt.segment_id {
        return Err(StorageError::corrupt("segment receipt names different segments"));
    }
    if receipt.placement.storage_node != receipt.storage_node {
        return Err(StorageError::corrupt("segment receipt names different storage nodes"));
    }
    if receipt.descriptor.bytes != receipt.bytes || receipt.placement.bytes != receipt.bytes {
        return Err(StorageError::corrupt("segment receipt names different lengths"));
    }
    if receipt.descriptor.integrity != receipt.integrity {
        return Err(StorageError::corrupt("segment receipt names different checksums"));
    }
    if receipt.proof_scheme != ProofScheme::DeterministicTestMacV1 {
        return Err(StorageError::corrupt("segment receipt has an unknown proof scheme"));
    }
    if receipt.proof != compute_proof(receipt) {
        return Err(StorageError::corrupt("segment receipt proof does not verify"));
    }
    Ok(())
}

/// Whether a valid receipt is for a write that the grant allowed.
pub open spec fn receipt_matches(grant: WriteGrant, receipt: SegmentWriteReceipt) -> bool {
    &&& receipt_valid(receipt)
    &&& receipt.grant_id == grant.grant_id
    &&& receipt.grant_hash == grant.hash
    &&& receipt.tenant == grant.request.tenant
    &&& receipt.principal == grant.request.principal
    &&& receipt.intent == grant.request.intent
    &&& receipt.write_intent == grant.request.write_intent
    &&& receipt.segment_id == grant.request.segment_id
    &&& receipt.storage_node == grant.request.storage_node
    &&& receipt.durability == grant.request.durability
    &&& 0 < receipt.bytes <= grant.request.max_bytes
}

pub fn verify_receipt_matches_grant(grant: &WriteGrant, receipt: &SegmentWriteReceipt) -> (result:
    Result<(), StorageError>)
    ensures
        result is Ok <==> receipt_matches(*grant, *receipt),
        result matches Err(error) ==> error is Corrupt,
{
    match verify_segment_receipt(receipt) {
        Ok(()) => {},
        Err(error) => return Err(error),
    }
    if receipt.grant_id == grant.grant_id && receipt.grant_hash == grant.hash && receipt.tenant
        == grant.request.tenant && receipt.principal == grant.request.principal && receipt.intent
        == grant.request.intent && receipt.write_intent == grant.request.write_intent
        && receipt.segment_id == grant.request.segment_id && receipt.storage_node
        == grant.request.storage_node && receipt.durability == grant.request.durability
        && receipt.bytes > 0 && receipt.bytes <= grant.request.max_bytes {
        Ok(())
    } else {
        Err(StorageError::corrupt("segment receipt does not match its grant"))
    }
}

/// The receipt of a storage node for bytes written under a grant.
pub open spec fn receipt_for(
    grant: WriteGrant,
    bytes: u64,
    blocks: u64,
    integrity: SegmentPayloadIntegrity,
    offset: u64,
) -> SegmentWriteReceipt {
    let request = grant.request;
    let plain = SegmentWriteReceipt {
        tenant: request.tenant,
        grant_id: grant.grant_id,
        grant_hash: grant.hash,
        principal: request.principal,
        owner: intent_owner(request.intent),
        storage_node: request.storage_node,
        storage_node_incarnation: ServerIncarnation(1),
        segment_id: request.segment_id,
        write_intent: request.write_intent,
        intent: request.intent,
        bytes,
        integrity,
        durability: request.durability,
        lifecycle: SegmentReceiptLifecycle::DurablePendingMetadata,
        receipt_epoch: GrantEpoch(1),
        expires_at: request.expires_at,
        node_key_id: StorageNodeKeyId(request.storage_node.0),
        proof_scheme: ProofScheme::DeterministicTestMacV1,
        proof: ProofTag { high: 0, low: 0 },
        descriptor: SegmentDescriptor {
            segment_id: request.segment_id,
            blocks: BlockCount(blocks),
            bytes,
            integrity,
        },
        placement: SegmentReplicaPlacement {
            segment_id: request.segment_id,
            storage_node: request.storage_node,
            offset,
            bytes,
        },
    };
    SegmentWriteReceipt { proof: proof_of(plain), ..plain }
}

/// The receipt of a storage node for bytes written under a grant.
pub fn make_receipt(
    grant: &WriteGrant,
    bytes: u64,
    blocks: u64,
    integrity: SegmentPayloadIntegrity,
    offset: u64,
) -> (receipt: SegmentWriteReceipt)
    ensures
        receipt == receipt_for(*grant, bytes, blocks, integrity, offset),
        receipt_valid(receipt),
        0 < bytes <= grant.request.max_bytes ==> receipt_matches(*grant, receipt),
{
    let request = grant.request;
    let mut receipt = SegmentWriteReceipt {
        tenant: request.tenant,
        grant_id: grant.grant_id,
        grant_hash: grant.hash,
        principal: request.principal,
        owner: owner_of_intent(request.intent),
        storage_node: request.storage_node,
        storage_node_incarnation: ServerIncarnation(1),
        segment_id: request.segment_id,
        write_intent: request.write_intent,
        intent: request.intent,
        bytes,
        integrity,
        durability: request.durability,
        lifecycle: SegmentReceiptLifecycle::DurablePendingMetadata,
        receipt_epoch: GrantEpoch(1),
        expires_at: request.expires_at,
        node_key_id: StorageNodeKeyId(request.storage_node.raw()),
        proof_scheme: ProofScheme::DeterministicTestMacV1,
        proof: ProofTag { high: 0, low: 0 },
        descriptor: SegmentDescriptor {
            segment_id: request.segment_id,
            blocks: BlockCount(blocks),
            bytes,
            integrity,
        },
        placement: SegmentReplicaPlacement {
            segment_id: request.segment_id,
            storage_node: request.storage_node,
            offset,
            bytes,
        },
    };
    let tag = compute_proof(&receipt);
    let ghost plain = receipt;
    receipt.proof = tag;
    assert(unproved(receipt) == unproved(plain));
    receipt
}

} // verus!
