//! Checksums of stored payloads and the policy of reads towards them.
use vstd::prelude::*;

use crate::block_api::{ByteRange, PayloadIntegrity, ReadVerification};
use crate::checksum::{checksum, data_log_checksum};
use crate::error::StorageError;
use crate::id::{SegmentId, StorageNodeId};
use crate::metadata_records::SegmentPayloadIntegrity;

verus! {

/// What a payload written under a policy is stored with.
pub open spec fn payload_integrity_of(
    policy: PayloadIntegrity,
    bytes: Seq<u8>,
) -> SegmentPayloadIntegrity {
    match policy {
        PayloadIntegrity::Verified => SegmentPayloadIntegrity::Crc32c(checksum(bytes)),
        PayloadIntegrity::Unchecked => SegmentPayloadIntegrity::Unchecked,
    }
}

pub fn segment_payload_integrity(policy: PayloadIntegrity, bytes: &[u8]) -> (integrity:
    SegmentPayloadIntegrity)
    ensures
        integrity == payload_integrity_of(policy, bytes@),
{
    match policy {
        PayloadIntegrity::Verified => SegmentPayloadIntegrity::Crc32c(data_log_checksum(bytes)),
        PayloadIntegrity::Unchecked => SegmentPayloadIntegrity::Unchecked,
    }
}

/// Whether a read may return bytes that are stored so: only a read that asks
/// for verified bytes refuses those without a checksum.
pub open spec fn policy_allows(
    integrity: SegmentPayloadIntegrity,
    verification: ReadVerification,
) -> bool {
    verification == ReadVerification::RequireVerified ==> integrity is Crc32c
}

pub fn verify_read_integrity_policy(
    integrity: SegmentPayloadIntegrity,
    verification: ReadVerification,
) -> (result: Result<(), StorageError>)
    ensures
        result is Ok <==> policy_allows(integrity, verification),
        result matches Err(error) ==> error is Corrupt,
{
    match (verification, integrity) {
        (ReadVerification::RequireVerified, SegmentPayloadIntegrity::Unchecked) => Err(
            StorageError::corrupt("read requires a verified payload"),
        ),
        _ => Ok(()),
    }
}

/// Whether `bytes` are what was stored under this checksum.
pub open spec fn integrity_matches(integrity: SegmentPayloadIntegrity, bytes: Seq<u8>) -> bool {
    integrity matches SegmentPayloadIntegrity::Crc32c(expected) ==> expected == checksum(bytes)
}

pub fn verify_segment_payload_integrity(
    integrity: SegmentPayloadIntegrity,
    bytes: &[u8],
) -> (result: Result<(), StorageError>)
    ensures
        result is Ok <==> integrity_matches(integrity, bytes@),
        result matches Err(error) ==> error is Corrupt,
{
    match integrity {
        SegmentPayloadIntegrity::Crc32c(expected) => {
            if data_log_checksum(bytes) == expected {
                Ok(())
            } else {
                Err(StorageError::corrupt("segment payload checksum mismatch"))
            }
        },
        SegmentPayloadIntegrity::Unchecked => Ok(()),
    }
}

/// A place in a segment or a run log, as contracts speak of it.
pub type StoredPlace = int;

/// A service that reads stored segments and append runs.
pub trait StorageNodeReadService {
    /// The byte that a segment holds at `offset`.
    spec fn stored_byte(
        &self,
        storage_node: StorageNodeId,
        segment_id: SegmentId,
        offset: StoredPlace,
    ) -> u8;

    /// The byte that a run log holds at `offset`.
    spec fn logged_byte(&self, storage_node: StorageNodeId, log_id: u64, offset: StoredPlace) -> u8;

    /// Whether a read of a segment succeeds.
    spec fn serves_segment(
        &self,
        storage_node: StorageNodeId,
        segment_id: SegmentId,
        range: ByteRange,
        integrity: SegmentPayloadIntegrity,
        verification: ReadVerification,
    ) -> bool;

    /// Whether a read of a run log succeeds.
    spec fn serves_log(
        &self,
        storage_node: StorageNodeId,
        log_id: u64,
        range: ByteRange,
        integrity: SegmentPayloadIntegrity,
        verification: ReadVerification,
    ) -> bool;

    /// Fills `buf` from a segment.
    fn read_segment_source(
        &self,
        storage_node: StorageNodeId,
        segment_id: SegmentId,
        range: ByteRange,
        integrity: SegmentPayloadIntegrity,
        verification: ReadVerification,
        buf: &mut [u8],
    ) -> (result: Result<(), StorageError>)
        ensures
            final(buf)@.len() == old(buf)@.len(),
            result is Ok ==> range.len == old(buf)@.len() && forall|i: int|
                0 <= i < old(buf)@.len() ==> #[trigger] final(buf)@[i] == self.stored_byte(
                    storage_node,
                    segment_id,
                    range.offset + i,
                ),
            range.len == old(buf)@.len() && self.serves_segment(
                storage_node,
                segment_id,
                range,
                integrity,
                verification,
            ) ==> result is Ok,
    ;

    /// Fills `buf` from a run log.
    fn read_append_run_source(
        &self,
        storage_node: StorageNodeId,
        log_id: u64,
        range: ByteRange,
        integrity: SegmentPayloadIntegrity,
        verification: ReadVerification,
        buf: &mut [u8],
    ) -> (result: Result<(), StorageError>)
        ensures
            final(buf)@.len() == old(buf)@.len(),
            result is Ok ==> range.len == old(buf)@.len() && forall|i: int|
                0 <= i < old(buf)@.len() ==> #[trigger] final(buf)@[i] == self.logged_byte(
                    storage_node,
                    log_id,
                    range.offset + i,
                ),
            range.len == old(buf)@.len() && self.serves_log(
                storage_node,
                log_id,
                range,
                integrity,
                verification,
            ) ==> result is Ok,
    ;
}

} // verus!
