//! Segments, write grants and receipts.
use vstd::prelude::*;

use crate::codec::{durable_codec_error, lemma_drop_tag, lemma_split_unique, lemma_starts_with_value, pair_same, pair_wire, DurableCodec, DurableDecoder, DurableEncode, DurableEncoder};
use crate::error::StorageError;
use crate::block_api::{BlockRange, ByteRange, WriteDurability};
use crate::id::{
    AppendStreamId, AppendTicketId, DeviceGeneration, DeviceId, FileId, FileVersion, GrantEpoch,
    GrantId, KeyspaceId, LogicalDeadline, MetadataNodeId, PrincipalId, SegmentId, ServerIncarnation,
    ShardId, StorageNodeId, StorageNodeKeyId, TenantId, WriteIntentId, WriterEpoch,
};
use crate::metadata_records::{MappingOwner, SegmentDescriptor, SegmentPayloadIntegrity};

verus! {

/// Why a segment was reserved.
#[derive(Clone, Copy, Debug, PartialEq, Eq, Structural)]
pub struct SegmentReservationIntent {
    pub write_intent: WriteIntentId,
    pub owner: MappingOwner,
    pub bytes: u64,
}

impl DurableEncode for SegmentReservationIntent {
    #[verifier::opaque]
    open spec fn wire(&self) -> Seq<u8> {
        self.fields().wire()
    }

    open spec fn durable(&self) -> bool {
        self.fields().durable()
    }

    fn encode(&self, out: &mut DurableEncoder) -> (result: Result<(), StorageError>) {
        reveal(pair_wire);
        reveal(<SegmentReservationIntent as DurableEncode>::wire);
        (&self.write_intent, (&self.owner, &self.bytes)).encode(out)
    }
}

impl SegmentReservationIntent {
    pub open spec fn fields(self) -> (WriteIntentId, (MappingOwner, u64)) {
        (self.write_intent, (self.owner, self.bytes))
    }
}

impl DurableCodec for SegmentReservationIntent {
    open spec fn same(&self, other: &SegmentReservationIntent) -> bool {
        *self == *other
    }

    proof fn lemma_unambiguous(a: &SegmentReservationIntent, b: &SegmentReservationIntent, a_tail: Seq<u8>, b_tail: Seq<u8>) {
        reveal(<SegmentReservationIntent as DurableEncode>::wire);
        reveal(pair_same);
        <(WriteIntentId, (MappingOwner, u64))>::lemma_unambiguous(&a.fields(), &b.fields(), a_tail, b_tail);
        assert(a.same(b));
    }

    fn decode(input: &mut DurableDecoder<'_>) -> (result: Result<SegmentReservationIntent, StorageError>) {
        reveal(<SegmentReservationIntent as DurableEncode>::wire);
        let ghost whole = input.rest();
        match <(WriteIntentId, (MappingOwner, u64))>::decode(input) {
            Ok((write_intent, (owner, bytes))) => {
                let value = SegmentReservationIntent { write_intent, owner, bytes };
                proof {
                    lemma_starts_with_value(value, input.rest());
                }
                Ok(value)
            },
            Err(error) => {
                proof {
                    assert forall|value: SegmentReservationIntent, tail: Seq<u8>|
                        value.durable() && #[trigger] (value.wire() + tail) == whole implies false by {
                        lemma_starts_with_value(value.fields(), tail);
                    }
                }
                Err(error)
            },
        }
    }
}

/// A reserved segment.
#[derive(Clone, Copy, Debug, PartialEq, Eq, Structural)]
pub struct SegmentReservation {
    pub segment_id: SegmentId,
    pub bytes: u64,
}

impl DurableEncode for SegmentReservation {
    #[verifier::opaque]
    open spec fn wire(&self) -> Seq<u8> {
        self.fields().wire()
    }

    open spec fn durable(&self) -> bool {
        self.fields().durable()
    }

    fn encode(&self, out: &mut DurableEncoder) -> (result: Result<(), StorageError>) {
        reveal(pair_wire);
        reveal(<SegmentReservation as DurableEncode>::wire);
        (&self.segment_id, &self.bytes).encode(out)
    }
}

impl SegmentReservation {
    pub open spec fn fields(self) -> (SegmentId, u64) {
        (self.segment_id, self.bytes)
    }
}

impl DurableCodec for SegmentReservation {
    open spec fn same(&self, other: &SegmentReservation) -> bool {
        *self == *other
    }

    proof fn lemma_unambiguous(a: &SegmentReservation, b: &SegmentReservation, a_tail: Seq<u8>, b_tail: Seq<u8>) {
        reveal(<SegmentReservation as DurableEncode>::wire);
        reveal(pair_same);
        <(SegmentId, u64)>::lemma_unambiguous(&a.fields(), &b.fields(), a_tail, b_tail);
        assert(a.same(b));
    }

    fn decode(input: &mut DurableDecoder<'_>) -> (result: Result<SegmentReservation, StorageError>) {
        reveal(<SegmentReservation as DurableEncode>::wire);
        let ghost whole = input.rest();
        match <(SegmentId, u64)>::decode(input) {
            Ok((segment_id, bytes)) => {
                let value = SegmentReservation { segment_id, bytes };
                proof {
                    lemma_starts_with_value(value, input.rest());
                }
                Ok(value)
            },
            Err(error) => {
                proof {
                    assert forall|value: SegmentReservation, tail: Seq<u8>|
                        value.durable() && #[trigger] (value.wire() + tail) == whole implies false by {
                        lemma_starts_with_value(value.fields(), tail);
                    }
                }
                Err(error)
            },
        }
    }
}

/// Where a copy of a segment lies.
#[derive(Clone, Copy, Debug, PartialEq, Eq, Structural)]
pub struct SegmentReplicaPlacement {
    pub segment_id: SegmentId,
    pub storage_node: StorageNodeId,
    pub offset: u64,
    pub bytes: u64,
}

impl DurableEncode for SegmentReplicaPlacement {
    #[verifier::opaque]
    open spec fn wire(&self) -> Seq<u8> {
        self.fields().wire()
    }

    open spec fn durable(&self) -> bool {
        self.fields().durable()
    }

    fn encode(&self, out: &mut DurableEncoder) -> (result: Result<(), StorageError>) {
        reveal(pair_wire);
        reveal(<SegmentReplicaPlacement as DurableEncode>::wire);
        (&self.segment_id, (&self.storage_node, (&self.offset, &self.bytes))).encode(out)
    }
}

impl SegmentReplicaPlacement {
    pub open spec fn fields(self) -> (SegmentId, (StorageNodeId, (u64, u64))) {
        (self.segment_id, (self.storage_node, (self.offset, self.bytes)))
    }
}

impl DurableCodec for SegmentReplicaPlacement {
    open spec fn same(&self, other: &SegmentReplicaPlacement) -> bool {
        *self == *other
    }

    proof fn lemma_unambiguous(a: &SegmentReplicaPlacement, b: &SegmentReplicaPlacement, a_tail: Seq<u8>, b_tail: Seq<u8>) {
        reveal(<SegmentReplicaPlacement as DurableEncode>::wire);
        reveal(pair_same);
        <(SegmentId, (StorageNodeId, (u64, u64)))>::lemma_unambiguous(&a.fields(), &b.fields(), a_tail, b_tail);
        assert(a.same(b));
    }

    fn decode(input: &mut DurableDecoder<'_>) -> (result: Result<SegmentReplicaPlacement, StorageError>) {
        reveal(<SegmentReplicaPlacement as DurableEncode>::wire);
        let ghost whole = input.rest();
        match <(SegmentId, (StorageNodeId, (u64, u64)))>::decode(input) {
            Ok((segment_id, (storage_node, (offset, bytes)))) => {
                let value = SegmentReplicaPlacement { segment_id, storage_node, offset, bytes };
                proof {
                    lemma_starts_with_value(value, input.rest());
                }
                Ok(value)
            },
            Err(error) => {
                proof {
                    assert forall|value: SegmentReplicaPlacement, tail: Seq<u8>|
                        value.durable() && #[trigger] (value.wire() + tail) == whole implies false by {
                        lemma_starts_with_value(value.fields(), tail);
                    }
                }
                Err(error)
            },
        }
    }
}

/// A stored copy of a segment.
#[derive(Clone, Copy, Debug, PartialEq, Eq, Structural)]
pub struct SegmentReplicaCommit {
    pub descriptor: SegmentDescriptor,
    pub placement: SegmentReplicaPlacement,
}

impl DurableEncode for SegmentReplicaCommit {
    #[verifier::opaque]
    open spec fn wire(&self) -> Seq<u8> {
        self.fields().wire()
    }

    open spec fn durable(&self) -> bool {
        self.fields().durable()
    }

    fn encode(&self, out: &mut DurableEncoder) -> (result: Result<(), StorageError>) {
        reveal(pair_wire);
        reveal(<SegmentReplicaCommit as DurableEncode>::wire);
        (&self.descriptor, &self.placement).encode(out)
    }
}

impl SegmentReplicaCommit {
    pub open spec fn fields(self) -> (SegmentDescriptor, SegmentReplicaPlacement) {
        (self.descriptor, self.placement)
    }
}

impl DurableCodec for SegmentReplicaCommit {
    open spec fn same(&self, other: &SegmentReplicaCommit) -> bool {
        *self == *other
    }

    proof fn lemma_unambiguous(a: &SegmentReplicaCommit, b: &SegmentReplicaCommit, a_tail: Seq<u8>, b_tail: Seq<u8>) {
        reveal(<SegmentReplicaCommit as DurableEncode>::wire);
        reveal(pair_same);
        <(SegmentDescriptor, SegmentReplicaPlacement)>::lemma_unambiguous(&a.fields(), &b.fields(), a_tail, b_tail);
        assert(a.same(b));
    }

    fn decode(input: &mut DurableDecoder<'_>) -> (result: Result<SegmentReplicaCommit, StorageError>) {
        reveal(<SegmentReplicaCommit as DurableEncode>::wire);
        let ghost whole = input.rest();
        match <(SegmentDescriptor, SegmentReplicaPlacement)>::decode(input) {
            Ok((descriptor, placement)) => {
                let value = SegmentReplicaCommit { descriptor, placement };
                proof {
                    lemma_starts_with_value(value, input.rest());
                }
                Ok(value)
            },
            Err(error) => {
                proof {
                    assert forall|value: SegmentReplicaCommit, tail: Seq<u8>|
                        value.durable() && #[trigger] (value.wire() + tail) == whole implies false by {
                        lemma_starts_with_value(value.fields(), tail);
                    }
                }
                Err(error)
            },
        }
    }
}

/// How a receipt is proved.
#[derive(Clone, Copy, Debug, PartialEq, Eq, Structural)]
pub enum ProofScheme {
    DeterministicTestMacV1,
    NodeSignatureV1,
}

impl ProofScheme {
    /// The byte that tells the variants apart.
    pub open spec fn tag(&self) -> u8 {
        match self {
            ProofScheme::DeterministicTestMacV1 => 1,
            ProofScheme::NodeSignatureV1 => 2,
        }
    }
}

impl DurableEncode for ProofScheme {
    #[verifier::opaque]
    open spec fn wire(&self) -> Seq<u8> {
        seq![self.tag()]
    }

    open spec fn durable(&self) -> bool {
        true
    }

    fn encode(&self, out: &mut DurableEncoder) -> (result: Result<(), StorageError>) {
        reveal(<ProofScheme as DurableEncode>::wire);
        match self {
            ProofScheme::DeterministicTestMacV1 => out.put_u8(1),
            ProofScheme::NodeSignatureV1 => out.put_u8(2),
        }
        Ok(())
    }
}

impl DurableCodec for ProofScheme {
    open spec fn same(&self, other: &ProofScheme) -> bool {
        *self == *other
    }

    proof fn lemma_unambiguous(a: &ProofScheme, b: &ProofScheme, a_tail: Seq<u8>, b_tail: Seq<u8>) {
        reveal(<ProofScheme as DurableEncode>::wire);
        lemma_split_unique(a.wire(), a_tail, b.wire(), b_tail);
        assert(a.wire()[0] == b.wire()[0]);
    }

    fn decode(input: &mut DurableDecoder<'_>) -> (result: Result<ProofScheme, StorageError>) {
        reveal(<ProofScheme as DurableEncode>::wire);
        let ghost whole = input.rest();
        let tag: u8 = match input.u8() {
            Ok(tag) => tag,
            Err(error) => {
                proof {
                    assert forall|value: ProofScheme, tail: Seq<u8>| #[trigger]
                        (value.wire() + tail) == whole implies false by {
                        assert((value.wire() + tail).len() >= 1);
                    }
                }
                return Err(error);
            },
        };
        let ghost rest = input.rest();
        proof {
            assert forall|value: ProofScheme, tail: Seq<u8>| #[trigger]
                (value.wire() + tail) == whole implies value.tag() == tag by {
                assert((value.wire() + tail)[0] == whole[0]);
            }
        }
        let value = match tag {
            1 => ProofScheme::DeterministicTestMacV1,
            2 => ProofScheme::NodeSignatureV1,
            _ => {
                return Err(durable_codec_error("invalid proof scheme tag"));
            },
        };
        proof {
            lemma_starts_with_value(value, input.rest());
        }
        Ok(value)
    }
}

/// Thirty-two bytes of proof, in two halves.
#[derive(Clone, Copy, Debug, PartialEq, Eq, Structural)]
pub struct ProofTag {
    pub high: u128,
    pub low: u128,
}

impl DurableEncode for ProofTag {
    #[verifier::opaque]
    open spec fn wire(&self) -> Seq<u8> {
        self.fields().wire()
    }

    open spec fn durable(&self) -> bool {
        self.fields().durable()
    }

    fn encode(&self, out: &mut DurableEncoder) -> (result: Result<(), StorageError>) {
        reveal(pair_wire);
        reveal(<ProofTag as DurableEncode>::wire);
        (&self.high, &self.low).encode(out)
    }
}

impl ProofTag {
    pub open spec fn fields(self) -> (u128, u128) {
        (self.high, self.low)
    }
}

impl DurableCodec for ProofTag {
    open spec fn same(&self, other: &ProofTag) -> bool {
        *self == *other
    }

    proof fn lemma_unambiguous(a: &ProofTag, b: &ProofTag, a_tail: Seq<u8>, b_tail: Seq<u8>) {
        reveal(<ProofTag as DurableEncode>::wire);
        reveal(pair_same);
        <(u128, u128)>::lemma_unambiguous(&a.fields(), &b.fields(), a_tail, b_tail);
        assert(a.same(b));
    }

    fn decode(input: &mut DurableDecoder<'_>) -> (result: Result<ProofTag, StorageError>) {
        reveal(<ProofTag as DurableEncode>::wire);
        let ghost whole = input.rest();
        match <(u128, u128)>::decode(input) {
            Ok((high, low)) => {
                let value = ProofTag { high, low };
                proof {
                    lemma_starts_with_value(value, input.rest());
                }
                Ok(value)
            },
            Err(error) => {
                proof {
                    assert forall|value: ProofTag, tail: Seq<u8>|
                        value.durable() && #[trigger] (value.wire() + tail) == whole implies false by {
                        lemma_starts_with_value(value.fields(), tail);
                    }
                }
                Err(error)
            },
        }
    }
}

/// Thirty-two bytes that name a grant, in two halves.
#[derive(Clone, Copy, Debug, PartialEq, Eq, Structural)]
pub struct GrantHash {
    pub high: u128,
    pub low: u128,
}

impl DurableEncode for GrantHash {
    #[verifier::opaque]
    open spec fn wire(&self) -> Seq<u8> {
        self.fields().wire()
    }

    open spec fn durable(&self) -> bool {
        self.fields().durable()
    }

    fn encode(&self, out: &mut DurableEncoder) -> (result: Result<(), StorageError>) {
        reveal(pair_wire);
        reveal(<GrantHash as DurableEncode>::wire);
        (&self.high, &self.low).encode(out)
    }
}

impl GrantHash {
    pub open spec fn fields(self) -> (u128, u128) {
        (self.high, self.low)
    }
}

impl DurableCodec for GrantHash {
    open spec fn same(&self, other: &GrantHash) -> bool {
        *self == *other
    }

    proof fn lemma_unambiguous(a: &GrantHash, b: &GrantHash, a_tail: Seq<u8>, b_tail: Seq<u8>) {
        reveal(<GrantHash as DurableEncode>::wire);
        reveal(pair_same);
        <(u128, u128)>::lemma_unambiguous(&a.fields(), &b.fields(), a_tail, b_tail);
        assert(a.same(b));
    }

    fn decode(input: &mut DurableDecoder<'_>) -> (result: Result<GrantHash, StorageError>) {
        reveal(<GrantHash as DurableEncode>::wire);
        let ghost whole = input.rest();
        match <(u128, u128)>::decode(input) {
            Ok((high, low)) => {
                let value = GrantHash { high, low };
                proof {
                    lemma_starts_with_value(value, input.rest());
                }
                Ok(value)
            },
            Err(error) => {
                proof {
                    assert forall|value: GrantHash, tail: Seq<u8>|
                        value.durable() && #[trigger] (value.wire() + tail) == whole implies false by {
                        lemma_starts_with_value(value.fields(), tail);
                    }
                }
                Err(error)
            },
        }
    }
}

/// What a granted write is for.
#[derive(Clone, Copy, Debug, PartialEq, Eq, Structural)]
pub enum WriteGrantIntent {
    BlockWrite {
        device_id: DeviceId,
        range: BlockRange,
        fence: DeviceGeneration,
        shard_id: ShardId,
        old_root: MetadataNodeId,
    },
    NativeWrite {
        keyspace_id: KeyspaceId,
        file_id: FileId,
        range: ByteRange,
        base_version: FileVersion,
    },
    NativeAppendStream {
        keyspace_id: KeyspaceId,
        file_id: FileId,
        stream_id: AppendStreamId,
        ticket_id: AppendTicketId,
        append_offset: u64,
        bytes: u64,
        writer_epoch: WriterEpoch,
    },
    Internal { owner: MappingOwner },
}

impl WriteGrantIntent {
    /// The byte that tells the variants apart.
    pub open spec fn tag(&self) -> u8 {
        match self {
            WriteGrantIntent::BlockWrite { .. } => 1,
            WriteGrantIntent::NativeWrite { .. } => 2,
            WriteGrantIntent::NativeAppendStream { .. } => 3,
            WriteGrantIntent::Internal { .. } => 4,
        }
    }

    /// The bytes behind the tag.
    pub open spec fn body(&self) -> Seq<u8> {
        match *self {
            WriteGrantIntent::BlockWrite { device_id, range, fence, shard_id, old_root } => ((device_id, (range, (fence, shard_id))), old_root).wire(),
            WriteGrantIntent::NativeWrite { keyspace_id, file_id, range, base_version } => (keyspace_id, (file_id, (range, base_version))).wire(),
            WriteGrantIntent::NativeAppendStream { keyspace_id, file_id, stream_id, ticket_id, append_offset, bytes, writer_epoch } => ((keyspace_id, (file_id, (stream_id, ticket_id))), (append_offset, (bytes, writer_epoch))).wire(),
            WriteGrantIntent::Internal { owner } => owner.wire(),
        }
    }
}

impl DurableEncode for WriteGrantIntent {
    #[verifier::opaque]
    open spec fn wire(&self) -> Seq<u8> {
        seq![self.tag()] + self.body()
    }

    open spec fn durable(&self) -> bool {
        match *self {
            WriteGrantIntent::BlockWrite { device_id, range, fence, shard_id, old_root } => ((device_id, (range, (fence, shard_id))), old_root).durable(),
            WriteGrantIntent::NativeWrite { keyspace_id, file_id, range, base_version } => (keyspace_id, (file_id, (range, base_version))).durable(),
            WriteGrantIntent::NativeAppendStream { keyspace_id, file_id, stream_id, ticket_id, append_offset, bytes, writer_epoch } => ((keyspace_id, (file_id, (stream_id, ticket_id))), (append_offset, (bytes, writer_epoch))).durable(),
            WriteGrantIntent::Internal { owner } => owner.durable(),
        }
    }

    fn encode(&self, out: &mut DurableEncoder) -> (result: Result<(), StorageError>) {
        reveal(pair_wire);
        reveal(<WriteGrantIntent as DurableEncode>::wire);
        match self {
            WriteGrantIntent::BlockWrite { device_id, range, fence, shard_id, old_root } => {
                out.put_u8(1);
                ((device_id, (range, (fence, shard_id))), old_root).encode(out)?;
            },
            WriteGrantIntent::NativeWrite { keyspace_id, file_id, range, base_version } => {
                out.put_u8(2);
                (keyspace_id, (file_id, (range, base_version))).encode(out)?;
            },
            WriteGrantIntent::NativeAppendStream { keyspace_id, file_id, stream_id, ticket_id, append_offset, bytes, writer_epoch } => {
                out.put_u8(3);
                ((keyspace_id, (file_id, (stream_id, ticket_id))), (append_offset, (bytes, writer_epoch))).encode(out)?;
            },
            WriteGrantIntent::Internal { owner } => {
                out.put_u8(4);
                owner.encode(out)?;
            },
        }
        assert(out@ =~= old(out)@ + self.wire());
        Ok(())
    }
}

impl DurableCodec for WriteGrantIntent {
    open spec fn same(&self, other: &WriteGrantIntent) -> bool {
        *self == *other
    }

    proof fn lemma_unambiguous(a: &WriteGrantIntent, b: &WriteGrantIntent, a_tail: Seq<u8>, b_tail: Seq<u8>) {
        reveal(<WriteGrantIntent as DurableEncode>::wire);
        reveal(pair_same);
        lemma_drop_tag(a.tag(), a.body(), a_tail);
        lemma_drop_tag(b.tag(), b.body(), b_tail);
        match (*a, *b) {
            (WriteGrantIntent::BlockWrite { device_id, range, fence, shard_id, old_root }, WriteGrantIntent::BlockWrite { device_id: b_device_id, range: b_range, fence: b_fence, shard_id: b_shard_id, old_root: b_old_root }) => {
                <((DeviceId, (BlockRange, (DeviceGeneration, ShardId))), MetadataNodeId)>::lemma_unambiguous(&((device_id, (range, (fence, shard_id))), old_root), &((b_device_id, (b_range, (b_fence, b_shard_id))), b_old_root), a_tail, b_tail);
            },
            (WriteGrantIntent::NativeWrite { keyspace_id, file_id, range, base_version }, WriteGrantIntent::NativeWrite { keyspace_id: b_keyspace_id, file_id: b_file_id, range: b_range, base_version: b_base_version }) => {
                <(KeyspaceId, (FileId, (ByteRange, FileVersion)))>::lemma_unambiguous(&(keyspace_id, (file_id, (range, base_version))), &(b_keyspace_id, (b_file_id, (b_range, b_base_version))), a_tail, b_tail);
            },
            (WriteGrantIntent::NativeAppendStream { keyspace_id, file_id, stream_id, ticket_id, append_offset, bytes, writer_epoch }, WriteGrantIntent::NativeAppendStream { keyspace_id: b_keyspace_id, file_id: b_file_id, stream_id: b_stream_id, ticket_id: b_ticket_id, append_offset: b_append_offset, bytes: b_bytes, writer_epoch: b_writer_epoch }) => {
                <((KeyspaceId, (FileId, (AppendStreamId, AppendTicketId))), (u64, (u64, WriterEpoch)))>::lemma_unambiguous(&((keyspace_id, (file_id, (stream_id, ticket_id))), (append_offset, (bytes, writer_epoch))), &((b_keyspace_id, (b_file_id, (b_stream_id, b_ticket_id))), (b_append_offset, (b_bytes, b_writer_epoch))), a_tail, b_tail);
            },
            (WriteGrantIntent::Internal { owner }, WriteGrantIntent::Internal { owner: b_owner }) => {
                MappingOwner::lemma_unambiguous(&owner, &b_owner, a_tail, b_tail);
            },
            _ => {},
        }
    }

    fn decode(input: &mut DurableDecoder<'_>) -> (result: Result<WriteGrantIntent, StorageError>) {
        reveal(<WriteGrantIntent as DurableEncode>::wire);
        let ghost whole = input.rest();
        let tag: u8 = match input.u8() {
            Ok(tag) => tag,
            Err(error) => {
                proof {
                    assert forall|value: WriteGrantIntent, tail: Seq<u8>| #[trigger]
                        (value.wire() + tail) == whole implies false by {
                        assert((value.wire() + tail).len() >= 1);
                    }
                }
                return Err(error);
            },
        };
        let ghost rest = input.rest();
        proof {
            assert forall|value: WriteGrantIntent, tail: Seq<u8>| #[trigger]
                (value.wire() + tail) == whole implies value.tag() == tag && rest == value.body()
                + tail by {
                lemma_drop_tag(value.tag(), value.body(), tail);
                assert(whole.skip(1) =~= rest);
            }
        }
        match tag {
            1 => match <((DeviceId, (BlockRange, (DeviceGeneration, ShardId))), MetadataNodeId)>::decode(input) {
                Ok(((device_id, (range, (fence, shard_id))), old_root)) => {
                    let value = WriteGrantIntent::BlockWrite { device_id, range, fence, shard_id, old_root };
                    proof {
                        assert(whole =~= value.wire() + input.rest());
                        lemma_starts_with_value(value, input.rest());
                    }
                    Ok(value)
                },
                Err(error) => {
                    proof {
                        assert forall|value: WriteGrantIntent, tail: Seq<u8>|
                            value.durable() && #[trigger] (value.wire() + tail) == whole implies false by {
                            match value {
                                WriteGrantIntent::BlockWrite { device_id, range, fence, shard_id, old_root } => {
                                    lemma_starts_with_value(((device_id, (range, (fence, shard_id))), old_root), tail);
                                },
                                _ => {},
                            }
                        }
                    }
                    Err(error)
                },
            },
            2 => match <(KeyspaceId, (FileId, (ByteRange, FileVersion)))>::decode(input) {
                Ok((keyspace_id, (file_id, (range, base_version)))) => {
                    let value = WriteGrantIntent::NativeWrite { keyspace_id, file_id, range, base_version };
                    proof {
                        assert(whole =~= value.wire() + input.rest());
                        lemma_starts_with_value(value, input.rest());
                    }
                    Ok(value)
                },
                Err(error) => {
                    proof {
                        assert forall|value: WriteGrantIntent, tail: Seq<u8>|
                            value.durable() && #[trigger] (value.wire() + tail) == whole implies false by {
                            match value {
                                WriteGrantIntent::NativeWrite { keyspace_id, file_id, range, base_version } => {
                                    lemma_starts_with_value((keyspace_id, (file_id, (range, base_version))), tail);
                                },
                                _ => {},
                            }
                        }
                    }
                    Err(error)
                },
            },
            3 => match <((KeyspaceId, (FileId, (AppendStreamId, AppendTicketId))), (u64, (u64, WriterEpoch)))>::decode(input) {
                Ok(((keyspace_id, (file_id, (stream_id, ticket_id))), (append_offset, (bytes, writer_epoch)))) => {
                    let value = WriteGrantIntent::NativeAppendStream { keyspace_id, file_id, stream_id, ticket_id, append_offset, bytes, writer_epoch };
                    proof {
                        assert(whole =~= value.wire() + input.rest());
                        lemma_starts_with_value(value, input.rest());
                    }
                    Ok(value)
                },
                Err(error) => {
                    proof {
                        assert forall|value: WriteGrantIntent, tail: Seq<u8>|
                            value.durable() && #[trigger] (value.wire() + tail) == whole implies false by {
                            match value {
                                WriteGrantIntent::NativeAppendStream { keyspace_id, file_id, stream_id, ticket_id, append_offset, bytes, writer_epoch } => {
                                    lemma_starts_with_value(((keyspace_id, (file_id, (stream_id, ticket_id))), (append_offset, (bytes, writer_epoch))), tail);
                                },
                                _ => {},
                            }
                        }
                    }
                    Err(error)
                },
            },
            4 => match MappingOwner::decode(input) {
                Ok(owner) => {
                    let value = WriteGrantIntent::Internal { owner };
                    proof {
                        assert(whole =~= value.wire() + input.rest());
                        lemma_starts_with_value(value, input.rest());
                    }
                    Ok(value)
                },
                Err(error) => {
                    proof {
                        assert forall|value: WriteGrantIntent, tail: Seq<u8>|
                            value.durable() && #[trigger] (value.wire() + tail) == whole implies false by {
                            match value {
                                WriteGrantIntent::Internal { owner } => {
                                    lemma_starts_with_value(owner, tail);
                                },
                                _ => {},
                            }
                        }
                    }
                    Err(error)
                },
            },
            _ => Err(durable_codec_error("invalid write grant intent tag")),
        }
    }
}

/// What a receipt says of its segment.
#[derive(Clone, Copy, Debug, PartialEq, Eq, Structural)]
pub enum SegmentReceiptLifecycle {
    DurablePendingMetadata,
}

impl SegmentReceiptLifecycle {
    /// The byte that tells the variants apart.
    pub open spec fn tag(&self) -> u8 {
        match self {
            SegmentReceiptLifecycle::DurablePendingMetadata => 1,
        }
    }
}

impl DurableEncode for SegmentReceiptLifecycle {
    #[verifier::opaque]
    open spec fn wire(&self) -> Seq<u8> {
        seq![self.tag()]
    }

    open spec fn durable(&self) -> bool {
        true
    }

    fn encode(&self, out: &mut DurableEncoder) -> (result: Result<(), StorageError>) {
        reveal(<SegmentReceiptLifecycle as DurableEncode>::wire);
        match self {
            SegmentReceiptLifecycle::DurablePendingMetadata => out.put_u8(1),
        }
        Ok(())
    }
}

impl DurableCodec for SegmentReceiptLifecycle {
    open spec fn same(&self, other: &SegmentReceiptLifecycle) -> bool {
        *self == *other
    }

    proof fn lemma_unambiguous(a: &SegmentReceiptLifecycle, b: &SegmentReceiptLifecycle, a_tail: Seq<u8>, b_tail: Seq<u8>) {
        reveal(<SegmentReceiptLifecycle as DurableEncode>::wire);
        lemma_split_unique(a.wire(), a_tail, b.wire(), b_tail);
        assert(a.wire()[0] == b.wire()[0]);
    }

    fn decode(input: &mut DurableDecoder<'_>) -> (result: Result<SegmentReceiptLifecycle, StorageError>) {
        reveal(<SegmentReceiptLifecycle as DurableEncode>::wire);
        let ghost whole = input.rest();
        let tag: u8 = match input.u8() {
            Ok(tag) => tag,
            Err(error) => {
                proof {
                    assert forall|value: SegmentReceiptLifecycle, tail: Seq<u8>| #[trigger]
                        (value.wire() + tail) == whole implies false by {
                        assert((value.wire() + tail).len() >= 1);
                    }
                }
                return Err(error);
            },
        };
        let ghost rest = input.rest();
        proof {
            assert forall|value: SegmentReceiptLifecycle, tail: Seq<u8>| #[trigger]
                (value.wire() + tail) == whole implies value.tag() == tag by {
                assert((value.wire() + tail)[0] == whole[0]);
            }
        }
        let value = match tag {
            1 => SegmentReceiptLifecycle::DurablePendingMetadata,
            _ => {
                return Err(durable_codec_error("invalid segment receipt lifecycle tag"));
            },
        };
        proof {
            lemma_starts_with_value(value, input.rest());
        }
        Ok(value)
    }
}

/// A storage node's word that it holds a segment.
#[derive(Clone, Copy, Debug, PartialEq, Eq, Structural)]
pub struct SegmentWriteReceipt {
    pub tenant: TenantId,
    pub grant_id: GrantId,
    pub grant_hash: GrantHash,
    pub principal: PrincipalId,
    pub owner: MappingOwner,
    pub storage_node: StorageNodeId,
    pub storage_node_incarnation: ServerIncarnation,
    pub segment_id: SegmentId,
    pub write_intent: WriteIntentId,
    pub intent: WriteGrantIntent,
    pub bytes: u64,
    pub integrity: SegmentPayloadIntegrity,
    pub durability: WriteDurability,
    pub lifecycle: SegmentReceiptLifecycle,
    pub receipt_epoch: GrantEpoch,
    pub expires_at: LogicalDeadline,
    pub node_key_id: StorageNodeKeyId,
    pub proof_scheme: ProofScheme,
    pub proof: ProofTag,
    pub descriptor: SegmentDescriptor,
    pub placement: SegmentReplicaPlacement,
}

impl DurableEncode for SegmentWriteReceipt {
    #[verifier::opaque]
    open spec fn wire(&self) -> Seq<u8> {
        self.fields().wire()
    }

    open spec fn durable(&self) -> bool {
        self.fields().durable()
    }

    fn encode(&self, out: &mut DurableEncoder) -> (result: Result<(), StorageError>) {
        reveal(pair_wire);
        reveal(<SegmentWriteReceipt as DurableEncode>::wire);
        ((((&self.tenant, (&self.grant_id, (&self.grant_hash, &self.principal))), (&self.owner, (&self.storage_node, (&self.storage_node_incarnation, &self.segment_id)))), ((&self.write_intent, (&self.intent, (&self.bytes, &self.integrity))), (&self.durability, (&self.lifecycle, (&self.receipt_epoch, &self.expires_at))))), ((&self.node_key_id, (&self.proof_scheme, (&self.proof, &self.descriptor))), &self.placement)).encode(out)
    }
}

impl SegmentWriteReceipt {
    pub open spec fn fields(self) -> ((((TenantId, (GrantId, (GrantHash, PrincipalId))), (MappingOwner, (StorageNodeId, (ServerIncarnation, SegmentId)))), ((WriteIntentId, (WriteGrantIntent, (u64, SegmentPayloadIntegrity))), (WriteDurability, (SegmentReceiptLifecycle, (GrantEpoch, LogicalDeadline))))), ((StorageNodeKeyId, (ProofScheme, (ProofTag, SegmentDescriptor))), SegmentReplicaPlacement)) {
        ((((self.tenant, (self.grant_id, (self.grant_hash, self.principal))), (self.owner, (self.storage_node, (self.storage_node_incarnation, self.segment_id)))), ((self.write_intent, (self.intent, (self.bytes, self.integrity))), (self.durability, (self.lifecycle, (self.receipt_epoch, self.expires_at))))), ((self.node_key_id, (self.proof_scheme, (self.proof, self.descriptor))), self.placement))
    }
}

impl DurableCodec for SegmentWriteReceipt {
    open spec fn same(&self, other: &SegmentWriteReceipt) -> bool {
        *self == *other
    }

    proof fn lemma_unambiguous(a: &SegmentWriteReceipt, b: &SegmentWriteReceipt, a_tail: Seq<u8>, b_tail: Seq<u8>) {
        reveal(<SegmentWriteReceipt as DurableEncode>::wire);
        reveal(pair_same);
        <((((TenantId, (GrantId, (GrantHash, PrincipalId))), (MappingOwner, (StorageNodeId, (ServerIncarnation, SegmentId)))), ((WriteIntentId, (WriteGrantIntent, (u64, SegmentPayloadIntegrity))), (WriteDurability, (SegmentReceiptLifecycle, (GrantEpoch, LogicalDeadline))))), ((StorageNodeKeyId, (ProofScheme, (ProofTag, SegmentDescriptor))), SegmentReplicaPlacement))>::lemma_unambiguous(&a.fields(), &b.fields(), a_tail, b_tail);
        assert(a.same(b));
    }

    fn decode(input: &mut DurableDecoder<'_>) -> (result: Result<SegmentWriteReceipt, StorageError>) {
        reveal(<SegmentWriteReceipt as DurableEncode>::wire);
        let ghost whole = input.rest();
        match <((((TenantId, (GrantId, (GrantHash, PrincipalId))), (MappingOwner, (StorageNodeId, (ServerIncarnation, SegmentId)))), ((WriteIntentId, (WriteGrantIntent, (u64, SegmentPayloadIntegrity))), (WriteDurability, (SegmentReceiptLifecycle, (GrantEpoch, LogicalDeadline))))), ((StorageNodeKeyId, (ProofScheme, (ProofTag, SegmentDescriptor))), SegmentReplicaPlacement))>::decode(input) {
            Ok(((((tenant, (grant_id, (grant_hash, principal))), (owner, (storage_node, (storage_node_incarnation, segment_id)))), ((write_intent, (intent, (bytes, integrity))), (durability, (lifecycle, (receipt_epoch, expires_at))))), ((node_key_id, (proof_scheme, (proof, descriptor))), placement))) => {
                let value = SegmentWriteReceipt { tenant, grant_id, grant_hash, principal, owner, storage_node, storage_node_incarnation, segment_id, write_intent, intent, bytes, integrity, durability, lifecycle, receipt_epoch, expires_at, node_key_id, proof_scheme, proof, descriptor, placement };
                proof {
                    lemma_starts_with_value(value, input.rest());
                }
                Ok(value)
            },
            Err(error) => {
                proof {
                    assert forall|value: SegmentWriteReceipt, tail: Seq<u8>|
                        value.durable() && #[trigger] (value.wire() + tail) == whole implies false by {
                        lemma_starts_with_value(value.fields(), tail);
                    }
                }
                Err(error)
            },
        }
    }
}

/// Where a segment is in its life.
#[derive(Clone, Copy, Debug, PartialEq, Eq, Structural)]
pub enum SegmentLifecycleState {
    Reserved,
    Writing,
    DurablePendingMetadata,
    Referenced,
    Released,
    Freed,
}

impl SegmentLifecycleState {
    /// The byte that tells the variants apart.
    pub open spec fn tag(&self) -> u8 {
        match self {
            SegmentLifecycleState::Reserved => 1,
            SegmentLifecycleState::Writing => 2,
            SegmentLifecycleState::DurablePendingMetadata => 3,
            SegmentLifecycleState::Referenced => 4,
            SegmentLifecycleState::Released => 5,
            SegmentLifecycleState::Freed => 6,
        }
    }
}

impl DurableEncode for SegmentLifecycleState {
    #[verifier::opaque]
    open spec fn wire(&self) -> Seq<u8> {
        seq![self.tag()]
    }

    open spec fn durable(&self) -> bool {
        true
    }

    fn encode(&self, out: &mut DurableEncoder) -> (result: Result<(), StorageError>) {
        reveal(<SegmentLifecycleState as DurableEncode>::wire);
        match self {
            SegmentLifecycleState::Reserved => out.put_u8(1),
            SegmentLifecycleState::Writing => out.put_u8(2),
            SegmentLifecycleState::DurablePendingMetadata => out.put_u8(3),
            SegmentLifecycleState::Referenced => out.put_u8(4),
            SegmentLifecycleState::Released => out.put_u8(5),
            SegmentLifecycleState::Freed => out.put_u8(6),
        }
        Ok(())
    }
}

impl DurableCodec for SegmentLifecycleState {
    open spec fn same(&self, other: &SegmentLifecycleState) -> bool {
        *self == *other
    }

    proof fn lemma_unambiguous(a: &SegmentLifecycleState, b: &SegmentLifecycleState, a_tail: Seq<u8>, b_tail: Seq<u8>) {
        reveal(<SegmentLifecycleState as DurableEncode>::wire);
        lemma_split_unique(a.wire(), a_tail, b.wire(), b_tail);
        assert(a.wire()[0] == b.wire()[0]);
    }

    fn decode(input: &mut DurableDecoder<'_>) -> (result: Result<SegmentLifecycleState, StorageError>) {
        reveal(<SegmentLifecycleState as DurableEncode>::wire);
        let ghost whole = input.rest();
        let tag: u8 = match input.u8() {
            Ok(tag) => tag,
            Err(error) => {
                proof {
                    assert forall|value: SegmentLifecycleState, tail: Seq<u8>| #[trigger]
                        (value.wire() + tail) == whole implies false by {
                        assert((value.wire() + tail).len() >= 1);
                    }
                }
                return Err(error);
            },
        };
        let ghost rest = input.rest();
        proof {
            assert forall|value: SegmentLifecycleState, tail: Seq<u8>| #[trigger]
                (value.wire() + tail) == whole implies value.tag() == tag by {
                assert((value.wire() + tail)[0] == whole[0]);
            }
        }
        let value = match tag {
            1 => SegmentLifecycleState::Reserved,
            2 => SegmentLifecycleState::Writing,
            3 => SegmentLifecycleState::DurablePendingMetadata,
            4 => SegmentLifecycleState::Referenced,
            5 => SegmentLifecycleState::Released,
            6 => SegmentLifecycleState::Freed,
            _ => {
                return Err(durable_codec_error("invalid segment lifecycle tag"));
            },
        };
        proof {
            lemma_starts_with_value(value, input.rest());
        }
        Ok(value)
    }
}

/// What a storage node knows of a segment.
#[derive(Clone, Copy, Debug, PartialEq, Eq, Structural)]
pub struct CatalogEntry {
    pub intent: SegmentReservationIntent,
    pub reservation: SegmentReservation,
    pub state: SegmentLifecycleState,
    pub receipt: Option<SegmentWriteReceipt>,
}

impl DurableEncode for CatalogEntry {
    #[verifier::opaque]
    open spec fn wire(&self) -> Seq<u8> {
        self.fields().wire()
    }

    open spec fn durable(&self) -> bool {
        self.fields().durable()
    }

    fn encode(&self, out: &mut DurableEncoder) -> (result: Result<(), StorageError>) {
        reveal(pair_wire);
        reveal(<CatalogEntry as DurableEncode>::wire);
        (&self.intent, (&self.reservation, (&self.state, &self.receipt))).encode(out)
    }
}

impl CatalogEntry {
    pub open spec fn fields(self) -> (SegmentReservationIntent, (SegmentReservation, (SegmentLifecycleState, Option<SegmentWriteReceipt>))) {
        (self.intent, (self.reservation, (self.state, self.receipt)))
    }
}

impl DurableCodec for CatalogEntry {
    open spec fn same(&self, other: &CatalogEntry) -> bool {
        *self == *other
    }

    proof fn lemma_unambiguous(a: &CatalogEntry, b: &CatalogEntry, a_tail: Seq<u8>, b_tail: Seq<u8>) {
        reveal(<CatalogEntry as DurableEncode>::wire);
        reveal(pair_same);
        <(SegmentReservationIntent, (SegmentReservation, (SegmentLifecycleState, Option<SegmentWriteReceipt>)))>::lemma_unambiguous(&a.fields(), &b.fields(), a_tail, b_tail);
        assert(a.same(b));
    }

    fn decode(input: &mut DurableDecoder<'_>) -> (result: Result<CatalogEntry, StorageError>) {
        reveal(<CatalogEntry as DurableEncode>::wire);
        let ghost whole = input.rest();
        match <(SegmentReservationIntent, (SegmentReservation, (SegmentLifecycleState, Option<SegmentWriteReceipt>)))>::decode(input) {
            Ok((intent, (reservation, (state, receipt)))) => {
                let value = CatalogEntry { intent, reservation, state, receipt };
                proof {
                    lemma_starts_with_value(value, input.rest());
                }
                Ok(value)
            },
            Err(error) => {
                proof {
                    assert forall|value: CatalogEntry, tail: Seq<u8>|
                        value.durable() && #[trigger] (value.wire() + tail) == whole implies false by {
                        lemma_starts_with_value(value.fields(), tail);
                    }
                }
                Err(error)
            },
        }
    }
}

} // verus!
