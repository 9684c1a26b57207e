//! Block devices as clients see them: ranges, requests and answers.
use vstd::prelude::*;

use crate::codec::{durable_codec_error, lemma_drop_tag, lemma_split_unique, lemma_starts_with_value, pair_same, pair_wire, DurableCodec, DurableDecoder, DurableEncode, DurableEncoder};
use crate::error::StorageError;
use crate::id::{
    BlockCount, BlockIndex, CheckpointId, ClientEpoch, CommitSeq, DeviceGeneration, DeviceId,
    LogicalDeadline, LogicalTime, RequestId,
};

verus! {

/// A range of bytes.
#[derive(Clone, Copy, Debug, PartialEq, Eq, Structural)]
pub struct ByteRange {
    pub offset: u64,
    pub len: u64,
}

impl DurableEncode for ByteRange {
    #[verifier::opaque]
    open spec fn wire(&self) -> Seq<u8> {
        self.fields().wire()
    }

    open spec fn durable(&self) -> bool {
        self.fields().durable()
    }

    fn encode(&self, out: &mut DurableEncoder) -> (result: Result<(), StorageError>) {
        reveal(pair_wire);
        reveal(<ByteRange as DurableEncode>::wire);
        (&self.offset, &self.len).encode(out)
    }
}

impl ByteRange {
    pub open spec fn fields(self) -> (u64, u64) {
        (self.offset, self.len)
    }
}

impl DurableCodec for ByteRange {
    open spec fn same(&self, other: &ByteRange) -> bool {
        *self == *other
    }

    proof fn lemma_unambiguous(a: &ByteRange, b: &ByteRange, a_tail: Seq<u8>, b_tail: Seq<u8>) {
        reveal(<ByteRange as DurableEncode>::wire);
        reveal(pair_same);
        <(u64, u64)>::lemma_unambiguous(&a.fields(), &b.fields(), a_tail, b_tail);
        assert(a.same(b));
    }

    fn decode(input: &mut DurableDecoder<'_>) -> (result: Result<ByteRange, StorageError>) {
        reveal(<ByteRange as DurableEncode>::wire);
        let ghost whole = input.rest();
        match <(u64, u64)>::decode(input) {
            Ok((offset, len)) => {
                let value = ByteRange { offset, len };
                proof {
                    lemma_starts_with_value(value, input.rest());
                }
                Ok(value)
            },
            Err(error) => {
                proof {
                    assert forall|value: ByteRange, tail: Seq<u8>|
                        value.durable() && #[trigger] (value.wire() + tail) == whole implies false by {
                        lemma_starts_with_value(value.fields(), tail);
                    }
                }
                Err(error)
            },
        }
    }
}

/// A range of blocks.
#[derive(Clone, Copy, Debug, PartialEq, Eq, Structural)]
pub struct BlockRange {
    pub start: BlockIndex,
    pub blocks: BlockCount,
}

impl DurableEncode for BlockRange {
    #[verifier::opaque]
    open spec fn wire(&self) -> Seq<u8> {
        self.fields().wire()
    }

    open spec fn durable(&self) -> bool {
        self.fields().durable()
    }

    fn encode(&self, out: &mut DurableEncoder) -> (result: Result<(), StorageError>) {
        reveal(pair_wire);
        reveal(<BlockRange as DurableEncode>::wire);
        (&self.start, &self.blocks).encode(out)
    }
}

impl BlockRange {
    pub open spec fn fields(self) -> (BlockIndex, BlockCount) {
        (self.start, self.blocks)
    }
}

impl DurableCodec for BlockRange {
    open spec fn same(&self, other: &BlockRange) -> bool {
        *self == *other
    }

    proof fn lemma_unambiguous(a: &BlockRange, b: &BlockRange, a_tail: Seq<u8>, b_tail: Seq<u8>) {
        reveal(<BlockRange as DurableEncode>::wire);
        reveal(pair_same);
        <(BlockIndex, BlockCount)>::lemma_unambiguous(&a.fields(), &b.fields(), a_tail, b_tail);
        assert(a.same(b));
    }

    fn decode(input: &mut DurableDecoder<'_>) -> (result: Result<BlockRange, StorageError>) {
        reveal(<BlockRange as DurableEncode>::wire);
        let ghost whole = input.rest();
        match <(BlockIndex, BlockCount)>::decode(input) {
            Ok((start, blocks)) => {
                let value = BlockRange { start, blocks };
                proof {
                    lemma_starts_with_value(value, input.rest());
                }
                Ok(value)
            },
            Err(error) => {
                proof {
                    assert forall|value: BlockRange, tail: Seq<u8>|
                        value.durable() && #[trigger] (value.wire() + tail) == whole implies false by {
                        lemma_starts_with_value(value.fields(), tail);
                    }
                }
                Err(error)
            },
        }
    }
}

/// The shape of a device.
#[derive(Clone, Copy, Debug, PartialEq, Eq, Structural)]
pub struct DeviceSpec {
    pub logical_blocks: u64,
    pub block_size: u32,
}

impl DurableEncode for DeviceSpec {
    #[verifier::opaque]
    open spec fn wire(&self) -> Seq<u8> {
        self.fields().wire()
    }

    open spec fn durable(&self) -> bool {
        self.fields().durable()
    }

    fn encode(&self, out: &mut DurableEncoder) -> (result: Result<(), StorageError>) {
        reveal(pair_wire);
        reveal(<DeviceSpec as DurableEncode>::wire);
        (&self.logical_blocks, &self.block_size).encode(out)
    }
}

impl DeviceSpec {
    pub open spec fn fields(self) -> (u64, u32) {
        (self.logical_blocks, self.block_size)
    }
}

impl DurableCodec for DeviceSpec {
    open spec fn same(&self, other: &DeviceSpec) -> bool {
        *self == *other
    }

    proof fn lemma_unambiguous(a: &DeviceSpec, b: &DeviceSpec, a_tail: Seq<u8>, b_tail: Seq<u8>) {
        reveal(<DeviceSpec as DurableEncode>::wire);
        reveal(pair_same);
        <(u64, u32)>::lemma_unambiguous(&a.fields(), &b.fields(), a_tail, b_tail);
        assert(a.same(b));
    }

    fn decode(input: &mut DurableDecoder<'_>) -> (result: Result<DeviceSpec, StorageError>) {
        reveal(<DeviceSpec as DurableEncode>::wire);
        let ghost whole = input.rest();
        match <(u64, u32)>::decode(input) {
            Ok((logical_blocks, block_size)) => {
                let value = DeviceSpec { logical_blocks, block_size };
                proof {
                    lemma_starts_with_value(value, input.rest());
                }
                Ok(value)
            },
            Err(error) => {
                proof {
                    assert forall|value: DeviceSpec, tail: Seq<u8>|
                        value.durable() && #[trigger] (value.wire() + tail) == whole implies false by {
                        lemma_starts_with_value(value.fields(), tail);
                    }
                }
                Err(error)
            },
        }
    }
}

/// When a write may be answered.
#[derive(Clone, Copy, Debug, PartialEq, Eq, Structural)]
pub enum WriteDurability {
    Acknowledged,
    Flushed,
}

impl WriteDurability {
    /// The byte that tells the variants apart.
    pub open spec fn tag(&self) -> u8 {
        match self {
            WriteDurability::Acknowledged => 1,
            WriteDurability::Flushed => 2,
        }
    }
}

impl DurableEncode for WriteDurability {
    #[verifier::opaque]
    open spec fn wire(&self) -> Seq<u8> {
        seq![self.tag()]
    }

    open spec fn durable(&self) -> bool {
        true
    }

    fn encode(&self, out: &mut DurableEncoder) -> (result: Result<(), StorageError>) {
        reveal(<WriteDurability as DurableEncode>::wire);
        match self {
            WriteDurability::Acknowledged => out.put_u8(1),
            WriteDurability::Flushed => out.put_u8(2),
        }
        Ok(())
    }
}

impl DurableCodec for WriteDurability {
    open spec fn same(&self, other: &WriteDurability) -> bool {
        *self == *other
    }

    proof fn lemma_unambiguous(a: &WriteDurability, b: &WriteDurability, a_tail: Seq<u8>, b_tail: Seq<u8>) {
        reveal(<WriteDurability as DurableEncode>::wire);
        lemma_split_unique(a.wire(), a_tail, b.wire(), b_tail);
        assert(a.wire()[0] == b.wire()[0]);
    }

    fn decode(input: &mut DurableDecoder<'_>) -> (result: Result<WriteDurability, StorageError>) {
        reveal(<WriteDurability as DurableEncode>::wire);
        let ghost whole = input.rest();
        let tag: u8 = match input.u8() {
            Ok(tag) => tag,
            Err(error) => {
                proof {
                    assert forall|value: WriteDurability, tail: Seq<u8>| #[trigger]
                        (value.wire() + tail) == whole implies false by {
                        assert((value.wire() + tail).len() >= 1);
                    }
                }
                return Err(error);
            },
        };
        let ghost rest = input.rest();
        proof {
            assert forall|value: WriteDurability, tail: Seq<u8>| #[trigger]
                (value.wire() + tail) == whole implies value.tag() == tag by {
                assert((value.wire() + tail)[0] == whole[0]);
            }
        }
        let value = match tag {
            1 => WriteDurability::Acknowledged,
            2 => WriteDurability::Flushed,
            _ => {
                return Err(durable_codec_error("invalid write durability tag"));
            },
        };
        proof {
            lemma_starts_with_value(value, input.rest());
        }
        Ok(value)
    }
}

/// Whether written bytes carry a checksum.
#[derive(Clone, Copy, Debug, PartialEq, Eq, Structural)]
pub enum PayloadIntegrity {
    Verified,
    Unchecked,
}

impl PayloadIntegrity {
    /// The byte that tells the variants apart.
    pub open spec fn tag(&self) -> u8 {
        match self {
            PayloadIntegrity::Verified => 1,
            PayloadIntegrity::Unchecked => 2,
        }
    }
}

impl DurableEncode for PayloadIntegrity {
    #[verifier::opaque]
    open spec fn wire(&self) -> Seq<u8> {
        seq![self.tag()]
    }

    open spec fn durable(&self) -> bool {
        true
    }

    fn encode(&self, out: &mut DurableEncoder) -> (result: Result<(), StorageError>) {
        reveal(<PayloadIntegrity as DurableEncode>::wire);
        match self {
            PayloadIntegrity::Verified => out.put_u8(1),
            PayloadIntegrity::Unchecked => out.put_u8(2),
        }
        Ok(())
    }
}

impl DurableCodec for PayloadIntegrity {
    open spec fn same(&self, other: &PayloadIntegrity) -> bool {
        *self == *other
    }

    proof fn lemma_unambiguous(a: &PayloadIntegrity, b: &PayloadIntegrity, a_tail: Seq<u8>, b_tail: Seq<u8>) {
        reveal(<PayloadIntegrity as DurableEncode>::wire);
        lemma_split_unique(a.wire(), a_tail, b.wire(), b_tail);
        assert(a.wire()[0] == b.wire()[0]);
    }

    fn decode(input: &mut DurableDecoder<'_>) -> (result: Result<PayloadIntegrity, StorageError>) {
        reveal(<PayloadIntegrity as DurableEncode>::wire);
        let ghost whole = input.rest();
        let tag: u8 = match input.u8() {
            Ok(tag) => tag,
            Err(error) => {
                proof {
                    assert forall|value: PayloadIntegrity, tail: Seq<u8>| #[trigger]
                        (value.wire() + tail) == whole implies false by {
                        assert((value.wire() + tail).len() >= 1);
                    }
                }
                return Err(error);
            },
        };
        let ghost rest = input.rest();
        proof {
            assert forall|value: PayloadIntegrity, tail: Seq<u8>| #[trigger]
                (value.wire() + tail) == whole implies value.tag() == tag by {
                assert((value.wire() + tail)[0] == whole[0]);
            }
        }
        let value = match tag {
            1 => PayloadIntegrity::Verified,
            2 => PayloadIntegrity::Unchecked,
            _ => {
                return Err(durable_codec_error("invalid payload integrity tag"));
            },
        };
        proof {
            lemma_starts_with_value(value, input.rest());
        }
        Ok(value)
    }
}

/// Which checksums a read checks.
#[derive(Clone, Copy, Debug, PartialEq, Eq, Structural)]
pub enum ReadVerification {
    Default,
    RequireVerified,
    Skip,
}

impl ReadVerification {
    /// The byte that tells the variants apart.
    pub open spec fn tag(&self) -> u8 {
        match self {
            ReadVerification::Default => 1,
            ReadVerification::RequireVerified => 2,
            ReadVerification::Skip => 3,
        }
    }
}

impl DurableEncode for ReadVerification {
    #[verifier::opaque]
    open spec fn wire(&self) -> Seq<u8> {
        seq![self.tag()]
    }

    open spec fn durable(&self) -> bool {
        true
    }

    fn encode(&self, out: &mut DurableEncoder) -> (result: Result<(), StorageError>) {
        reveal(<ReadVerification as DurableEncode>::wire);
        match self {
            ReadVerification::Default => out.put_u8(1),
            ReadVerification::RequireVerified => out.put_u8(2),
            ReadVerification::Skip => out.put_u8(3),
        }
        Ok(())
    }
}

impl DurableCodec for ReadVerification {
    open spec fn same(&self, other: &ReadVerification) -> bool {
        *self == *other
    }

    proof fn lemma_unambiguous(a: &ReadVerification, b: &ReadVerification, a_tail: Seq<u8>, b_tail: Seq<u8>) {
        reveal(<ReadVerification as DurableEncode>::wire);
        lemma_split_unique(a.wire(), a_tail, b.wire(), b_tail);
        assert(a.wire()[0] == b.wire()[0]);
    }

    fn decode(input: &mut DurableDecoder<'_>) -> (result: Result<ReadVerification, StorageError>) {
        reveal(<ReadVerification as DurableEncode>::wire);
        let ghost whole = input.rest();
        let tag: u8 = match input.u8() {
            Ok(tag) => tag,
            Err(error) => {
                proof {
                    assert forall|value: ReadVerification, tail: Seq<u8>| #[trigger]
                        (value.wire() + tail) == whole implies false by {
                        assert((value.wire() + tail).len() >= 1);
                    }
                }
                return Err(error);
            },
        };
        let ghost rest = input.rest();
        proof {
            assert forall|value: ReadVerification, tail: Seq<u8>| #[trigger]
                (value.wire() + tail) == whole implies value.tag() == tag by {
                assert((value.wire() + tail)[0] == whole[0]);
            }
        }
        let value = match tag {
            1 => ReadVerification::Default,
            2 => ReadVerification::RequireVerified,
            3 => ReadVerification::Skip,
            _ => {
                return Err(durable_codec_error("invalid read verification tag"));
            },
        };
        proof {
            lemma_starts_with_value(value, input.rest());
        }
        Ok(value)
    }
}

/// What a flush covers.
#[derive(Clone, Copy, Debug, PartialEq, Eq, Structural)]
pub enum FlushScope {
    Device,
    All,
}

impl FlushScope {
    /// The byte that tells the variants apart.
    pub open spec fn tag(&self) -> u8 {
        match self {
            FlushScope::Device => 1,
            FlushScope::All => 2,
        }
    }
}

impl DurableEncode for FlushScope {
    #[verifier::opaque]
    open spec fn wire(&self) -> Seq<u8> {
        seq![self.tag()]
    }

    open spec fn durable(&self) -> bool {
        true
    }

    fn encode(&self, out: &mut DurableEncoder) -> (result: Result<(), StorageError>) {
        reveal(<FlushScope as DurableEncode>::wire);
        match self {
            FlushScope::Device => out.put_u8(1),
            FlushScope::All => out.put_u8(2),
        }
        Ok(())
    }
}

impl DurableCodec for FlushScope {
    open spec fn same(&self, other: &FlushScope) -> bool {
        *self == *other
    }

    proof fn lemma_unambiguous(a: &FlushScope, b: &FlushScope, a_tail: Seq<u8>, b_tail: Seq<u8>) {
        reveal(<FlushScope as DurableEncode>::wire);
        lemma_split_unique(a.wire(), a_tail, b.wire(), b_tail);
        assert(a.wire()[0] == b.wire()[0]);
    }

    fn decode(input: &mut DurableDecoder<'_>) -> (result: Result<FlushScope, StorageError>) {
        reveal(<FlushScope as DurableEncode>::wire);
        let ghost whole = input.rest();
        let tag: u8 = match input.u8() {
            Ok(tag) => tag,
            Err(error) => {
                proof {
                    assert forall|value: FlushScope, tail: Seq<u8>| #[trigger]
                        (value.wire() + tail) == whole implies false by {
                        assert((value.wire() + tail).len() >= 1);
                    }
                }
                return Err(error);
            },
        };
        let ghost rest = input.rest();
        proof {
            assert forall|value: FlushScope, tail: Seq<u8>| #[trigger]
                (value.wire() + tail) == whole implies value.tag() == tag by {
                assert((value.wire() + tail)[0] == whole[0]);
            }
        }
        let value = match tag {
            1 => FlushScope::Device,
            2 => FlushScope::All,
            _ => {
                return Err(durable_codec_error("invalid flush scope tag"));
            },
        };
        proof {
            lemma_starts_with_value(value, input.rest());
        }
        Ok(value)
    }
}

/// A point of the history to go back to.
#[derive(Clone, Copy, Debug, PartialEq, Eq, Structural)]
pub enum RestorePoint {
    Commit(CommitSeq),
    Checkpoint(CheckpointId),
    Time(LogicalTime),
}

impl RestorePoint {
    /// The byte that tells the variants apart.
    pub open spec fn tag(&self) -> u8 {
        match self {
            RestorePoint::Commit(_) => 1,
            RestorePoint::Checkpoint(_) => 2,
            RestorePoint::Time(_) => 3,
        }
    }

    /// The bytes behind the tag.
    pub open spec fn body(&self) -> Seq<u8> {
        match *self {
            RestorePoint::Commit(commit) => commit.wire(),
            RestorePoint::Checkpoint(checkpoint) => checkpoint.wire(),
            RestorePoint::Time(time) => time.wire(),
        }
    }
}

impl DurableEncode for RestorePoint {
    #[verifier::opaque]
    open spec fn wire(&self) -> Seq<u8> {
        seq![self.tag()] + self.body()
    }

    open spec fn durable(&self) -> bool {
        match *self {
            RestorePoint::Commit(commit) => commit.durable(),
            RestorePoint::Checkpoint(checkpoint) => checkpoint.durable(),
            RestorePoint::Time(time) => time.durable(),
        }
    }

    fn encode(&self, out: &mut DurableEncoder) -> (result: Result<(), StorageError>) {
        reveal(<RestorePoint as DurableEncode>::wire);
        match self {
            RestorePoint::Commit(commit) => {
                out.put_u8(1);
                commit.encode(out)?;
            },
            RestorePoint::Checkpoint(checkpoint) => {
                out.put_u8(2);
                checkpoint.encode(out)?;
            },
            RestorePoint::Time(time) => {
                out.put_u8(3);
                time.encode(out)?;
            },
        }
        assert(out@ =~= old(out)@ + self.wire());
        Ok(())
    }
}

impl DurableCodec for RestorePoint {
    open spec fn same(&self, other: &RestorePoint) -> bool {
        *self == *other
    }

    proof fn lemma_unambiguous(a: &RestorePoint, b: &RestorePoint, a_tail: Seq<u8>, b_tail: Seq<u8>) {
        reveal(<RestorePoint as DurableEncode>::wire);
        lemma_drop_tag(a.tag(), a.body(), a_tail);
        lemma_drop_tag(b.tag(), b.body(), b_tail);
        match (*a, *b) {
            (RestorePoint::Commit(commit), RestorePoint::Commit(b_commit)) => {
                CommitSeq::lemma_unambiguous(&commit, &b_commit, a_tail, b_tail);
            },
            (RestorePoint::Checkpoint(checkpoint), RestorePoint::Checkpoint(b_checkpoint)) => {
                CheckpointId::lemma_unambiguous(&checkpoint, &b_checkpoint, a_tail, b_tail);
            },
            (RestorePoint::Time(time), RestorePoint::Time(b_time)) => {
                LogicalTime::lemma_unambiguous(&time, &b_time, a_tail, b_tail);
            },
            _ => {},
        }
    }

    fn decode(input: &mut DurableDecoder<'_>) -> (result: Result<RestorePoint, StorageError>) {
        reveal(<RestorePoint as DurableEncode>::wire);
        let ghost whole = input.rest();
        let tag: u8 = match input.u8() {
            Ok(tag) => tag,
            Err(error) => {
                proof {
                    assert forall|value: RestorePoint, tail: Seq<u8>| #[trigger]
                        (value.wire() + tail) == whole implies false by {
                        assert((value.wire() + tail).len() >= 1);
                    }
                }
                return Err(error);
            },
        };
        let ghost rest = input.rest();
        proof {
            assert forall|value: RestorePoint, tail: Seq<u8>| #[trigger]
                (value.wire() + tail) == whole implies value.tag() == tag && rest == value.body()
                + tail by {
                lemma_drop_tag(value.tag(), value.body(), tail);
                assert(whole.skip(1) =~= rest);
            }
        }
        match tag {
            1 => match CommitSeq::decode(input) {
                Ok(commit) => {
                    let value = RestorePoint::Commit(commit);
                    proof {
                        assert(whole =~= value.wire() + input.rest());
                        lemma_starts_with_value(value, input.rest());
                    }
                    Ok(value)
                },
                Err(error) => {
                    proof {
                        assert forall|value: RestorePoint, tail: Seq<u8>|
                            value.durable() && #[trigger] (value.wire() + tail) == whole implies false by {
                            match value {
                                RestorePoint::Commit(commit) => {
                                    lemma_starts_with_value(commit, tail);
                                },
                                _ => {},
                            }
                        }
                    }
                    Err(error)
                },
            },
            2 => match CheckpointId::decode(input) {
                Ok(checkpoint) => {
                    let value = RestorePoint::Checkpoint(checkpoint);
                    proof {
                        assert(whole =~= value.wire() + input.rest());
                        lemma_starts_with_value(value, input.rest());
                    }
                    Ok(value)
                },
                Err(error) => {
                    proof {
                        assert forall|value: RestorePoint, tail: Seq<u8>|
                            value.durable() && #[trigger] (value.wire() + tail) == whole implies false by {
                            match value {
                                RestorePoint::Checkpoint(checkpoint) => {
                                    lemma_starts_with_value(checkpoint, tail);
                                },
                                _ => {},
                            }
                        }
                    }
                    Err(error)
                },
            },
            3 => match LogicalTime::decode(input) {
                Ok(time) => {
                    let value = RestorePoint::Time(time);
                    proof {
                        assert(whole =~= value.wire() + input.rest());
                        lemma_starts_with_value(value, input.rest());
                    }
                    Ok(value)
                },
                Err(error) => {
                    proof {
                        assert forall|value: RestorePoint, tail: Seq<u8>|
                            value.durable() && #[trigger] (value.wire() + tail) == whole implies false by {
                            match value {
                                RestorePoint::Time(time) => {
                                    lemma_starts_with_value(time, tail);
                                },
                                _ => {},
                            }
                        }
                    }
                    Err(error)
                },
            },
            _ => Err(durable_codec_error("invalid restore point tag")),
        }
    }
}

/// What is known of a device.
#[derive(Clone, Copy, Debug, PartialEq, Eq, Structural)]
pub struct DeviceInfo {
    pub device_id: DeviceId,
    pub generation: DeviceGeneration,
    pub spec: DeviceSpec,
    pub latest_commit: CommitSeq,
}

impl DurableEncode for DeviceInfo {
    #[verifier::opaque]
    open spec fn wire(&self) -> Seq<u8> {
        self.fields().wire()
    }

    open spec fn durable(&self) -> bool {
        self.fields().durable()
    }

    fn encode(&self, out: &mut DurableEncoder) -> (result: Result<(), StorageError>) {
        reveal(pair_wire);
        reveal(<DeviceInfo as DurableEncode>::wire);
        (&self.device_id, (&self.generation, (&self.spec, &self.latest_commit))).encode(out)
    }
}

impl DeviceInfo {
    pub open spec fn fields(self) -> (DeviceId, (DeviceGeneration, (DeviceSpec, CommitSeq))) {
        (self.device_id, (self.generation, (self.spec, self.latest_commit)))
    }
}

impl DurableCodec for DeviceInfo {
    open spec fn same(&self, other: &DeviceInfo) -> bool {
        *self == *other
    }

    proof fn lemma_unambiguous(a: &DeviceInfo, b: &DeviceInfo, a_tail: Seq<u8>, b_tail: Seq<u8>) {
        reveal(<DeviceInfo as DurableEncode>::wire);
        reveal(pair_same);
        <(DeviceId, (DeviceGeneration, (DeviceSpec, CommitSeq)))>::lemma_unambiguous(&a.fields(), &b.fields(), a_tail, b_tail);
        assert(a.same(b));
    }

    fn decode(input: &mut DurableDecoder<'_>) -> (result: Result<DeviceInfo, StorageError>) {
        reveal(<DeviceInfo as DurableEncode>::wire);
        let ghost whole = input.rest();
        match <(DeviceId, (DeviceGeneration, (DeviceSpec, CommitSeq)))>::decode(input) {
            Ok((device_id, (generation, (spec, latest_commit)))) => {
                let value = DeviceInfo { device_id, generation, spec, latest_commit };
                proof {
                    lemma_starts_with_value(value, input.rest());
                }
                Ok(value)
            },
            Err(error) => {
                proof {
                    assert forall|value: DeviceInfo, tail: Seq<u8>|
                        value.durable() && #[trigger] (value.wire() + tail) == whole implies false by {
                        lemma_starts_with_value(value.fields(), tail);
                    }
                }
                Err(error)
            },
        }
    }
}

/// A request for a new device.
#[derive(Clone, Debug, PartialEq, Eq)]
pub struct CreateDeviceRequest {
    pub spec: DeviceSpec,
    pub name: Option<String>,
}

impl DurableEncode for CreateDeviceRequest {
    #[verifier::opaque]
    open spec fn wire(&self) -> Seq<u8> {
        self.fields().wire()
    }

    open spec fn durable(&self) -> bool {
        self.fields().durable()
    }

    fn encode(&self, out: &mut DurableEncoder) -> (result: Result<(), StorageError>) {
        reveal(pair_wire);
        reveal(<CreateDeviceRequest as DurableEncode>::wire);
        (&self.spec, &self.name).encode(out)
    }
}

impl CreateDeviceRequest {
    pub open spec fn fields(self) -> (DeviceSpec, Option<String>) {
        (self.spec, self.name)
    }
}

impl DurableCodec for CreateDeviceRequest {
    open spec fn same(&self, other: &CreateDeviceRequest) -> bool {
        self.fields().same(&other.fields())
    }

    proof fn lemma_unambiguous(a: &CreateDeviceRequest, b: &CreateDeviceRequest, a_tail: Seq<u8>, b_tail: Seq<u8>) {
        reveal(<CreateDeviceRequest as DurableEncode>::wire);
        <(DeviceSpec, Option<String>)>::lemma_unambiguous(&a.fields(), &b.fields(), a_tail, b_tail);
        assert(a.same(b));
    }

    fn decode(input: &mut DurableDecoder<'_>) -> (result: Result<CreateDeviceRequest, StorageError>) {
        reveal(<CreateDeviceRequest as DurableEncode>::wire);
        let ghost whole = input.rest();
        match <(DeviceSpec, Option<String>)>::decode(input) {
            Ok((spec, name)) => {
                let value = CreateDeviceRequest { spec, name };
                proof {
                    lemma_starts_with_value(value, input.rest());
                }
                Ok(value)
            },
            Err(error) => {
                proof {
                    assert forall|value: CreateDeviceRequest, tail: Seq<u8>|
                        value.durable() && #[trigger] (value.wire() + tail) == whole implies false by {
                        lemma_starts_with_value(value.fields(), tail);
                    }
                }
                Err(error)
            },
        }
    }
}

/// A committed write.
#[derive(Clone, Copy, Debug, PartialEq, Eq, Structural)]
pub struct WriteCommit {
    pub device_id: DeviceId,
    pub commit_seq: CommitSeq,
    pub range: ByteRange,
    pub durability: WriteDurability,
}

impl DurableEncode for WriteCommit {
    #[verifier::opaque]
    open spec fn wire(&self) -> Seq<u8> {
        self.fields().wire()
    }

    open spec fn durable(&self) -> bool {
        self.fields().durable()
    }

    fn encode(&self, out: &mut DurableEncoder) -> (result: Result<(), StorageError>) {
        reveal(pair_wire);
        reveal(<WriteCommit as DurableEncode>::wire);
        (&self.device_id, (&self.commit_seq, (&self.range, &self.durability))).encode(out)
    }
}

impl WriteCommit {
    pub open spec fn fields(self) -> (DeviceId, (CommitSeq, (ByteRange, WriteDurability))) {
        (self.device_id, (self.commit_seq, (self.range, self.durability)))
    }
}

impl DurableCodec for WriteCommit {
    open spec fn same(&self, other: &WriteCommit) -> bool {
        *self == *other
    }

    proof fn lemma_unambiguous(a: &WriteCommit, b: &WriteCommit, a_tail: Seq<u8>, b_tail: Seq<u8>) {
        reveal(<WriteCommit as DurableEncode>::wire);
        reveal(pair_same);
        <(DeviceId, (CommitSeq, (ByteRange, WriteDurability)))>::lemma_unambiguous(&a.fields(), &b.fields(), a_tail, b_tail);
        assert(a.same(b));
    }

    fn decode(input: &mut DurableDecoder<'_>) -> (result: Result<WriteCommit, StorageError>) {
        reveal(<WriteCommit as DurableEncode>::wire);
        let ghost whole = input.rest();
        match <(DeviceId, (CommitSeq, (ByteRange, WriteDurability)))>::decode(input) {
            Ok((device_id, (commit_seq, (range, durability)))) => {
                let value = WriteCommit { device_id, commit_seq, range, durability };
                proof {
                    lemma_starts_with_value(value, input.rest());
                }
                Ok(value)
            },
            Err(error) => {
                proof {
                    assert forall|value: WriteCommit, tail: Seq<u8>|
                        value.durable() && #[trigger] (value.wire() + tail) == whole implies false by {
                        lemma_starts_with_value(value.fields(), tail);
                    }
                }
                Err(error)
            },
        }
    }
}

/// One write of a batch.
#[derive(Clone, Debug, PartialEq, Eq)]
pub struct BlockBatchWrite {
    pub offset: u64,
    pub bytes: Vec<u8>,
    pub payload_integrity: PayloadIntegrity,
}

impl DurableEncode for BlockBatchWrite {
    #[verifier::opaque]
    open spec fn wire(&self) -> Seq<u8> {
        self.fields().wire()
    }

    open spec fn durable(&self) -> bool {
        self.fields().durable()
    }

    fn encode(&self, out: &mut DurableEncoder) -> (result: Result<(), StorageError>) {
        reveal(pair_wire);
        reveal(<BlockBatchWrite as DurableEncode>::wire);
        (&self.offset, (&self.bytes, &self.payload_integrity)).encode(out)
    }
}

impl BlockBatchWrite {
    pub open spec fn fields(self) -> (u64, (Vec<u8>, PayloadIntegrity)) {
        (self.offset, (self.bytes, self.payload_integrity))
    }
}

impl DurableCodec for BlockBatchWrite {
    open spec fn same(&self, other: &BlockBatchWrite) -> bool {
        self.fields().same(&other.fields())
    }

    proof fn lemma_unambiguous(a: &BlockBatchWrite, b: &BlockBatchWrite, a_tail: Seq<u8>, b_tail: Seq<u8>) {
        reveal(<BlockBatchWrite as DurableEncode>::wire);
        <(u64, (Vec<u8>, PayloadIntegrity))>::lemma_unambiguous(&a.fields(), &b.fields(), a_tail, b_tail);
        assert(a.same(b));
    }

    fn decode(input: &mut DurableDecoder<'_>) -> (result: Result<BlockBatchWrite, StorageError>) {
        reveal(<BlockBatchWrite as DurableEncode>::wire);
        let ghost whole = input.rest();
        match <(u64, (Vec<u8>, PayloadIntegrity))>::decode(input) {
            Ok((offset, (bytes, payload_integrity))) => {
                let value = BlockBatchWrite { offset, bytes, payload_integrity };
                proof {
                    lemma_starts_with_value(value, input.rest());
                }
                Ok(value)
            },
            Err(error) => {
                proof {
                    assert forall|value: BlockBatchWrite, tail: Seq<u8>|
                        value.durable() && #[trigger] (value.wire() + tail) == whole implies false by {
                        lemma_starts_with_value(value.fields(), tail);
                    }
                }
                Err(error)
            },
        }
    }
}

/// A committed batch.
#[derive(Clone, Copy, Debug, PartialEq, Eq, Structural)]
pub struct BlockBatchCommit {
    pub device_id: DeviceId,
    pub commit_seq: CommitSeq,
    pub write_count: u64,
    pub collapsed_range_count: u64,
    pub committed_bytes: u64,
    pub durability: WriteDurability,
}

impl DurableEncode for BlockBatchCommit {
    #[verifier::opaque]
    open spec fn wire(&self) -> Seq<u8> {
        self.fields().wire()
    }

    open spec fn durable(&self) -> bool {
        self.fields().durable()
    }

    fn encode(&self, out: &mut DurableEncoder) -> (result: Result<(), StorageError>) {
        reveal(pair_wire);
        reveal(<BlockBatchCommit as DurableEncode>::wire);
        ((&self.device_id, (&self.commit_seq, (&self.write_count, &self.collapsed_range_count))), (&self.committed_bytes, &self.durability)).encode(out)
    }
}

impl BlockBatchCommit {
    pub open spec fn fields(self) -> ((DeviceId, (CommitSeq, (u64, u64))), (u64, WriteDurability)) {
        ((self.device_id, (self.commit_seq, (self.write_count, self.collapsed_range_count))), (self.committed_bytes, self.durability))
    }
}

impl DurableCodec for BlockBatchCommit {
    open spec fn same(&self, other: &BlockBatchCommit) -> bool {
        *self == *other
    }

    proof fn lemma_unambiguous(a: &BlockBatchCommit, b: &BlockBatchCommit, a_tail: Seq<u8>, b_tail: Seq<u8>) {
        reveal(<BlockBatchCommit as DurableEncode>::wire);
        reveal(pair_same);
        <((DeviceId, (CommitSeq, (u64, u64))), (u64, WriteDurability))>::lemma_unambiguous(&a.fields(), &b.fields(), a_tail, b_tail);
        assert(a.same(b));
    }

    fn decode(input: &mut DurableDecoder<'_>) -> (result: Result<BlockBatchCommit, StorageError>) {
        reveal(<BlockBatchCommit as DurableEncode>::wire);
        let ghost whole = input.rest();
        match <((DeviceId, (CommitSeq, (u64, u64))), (u64, WriteDurability))>::decode(input) {
            Ok(((device_id, (commit_seq, (write_count, collapsed_range_count))), (committed_bytes, durability))) => {
                let value = BlockBatchCommit { device_id, commit_seq, write_count, collapsed_range_count, committed_bytes, durability };
                proof {
                    lemma_starts_with_value(value, input.rest());
                }
                Ok(value)
            },
            Err(error) => {
                proof {
                    assert forall|value: BlockBatchCommit, tail: Seq<u8>|
                        value.durable() && #[trigger] (value.wire() + tail) == whole implies false by {
                        lemma_starts_with_value(value.fields(), tail);
                    }
                }
                Err(error)
            },
        }
    }
}

/// How far a flush reached.
#[derive(Clone, Copy, Debug, PartialEq, Eq, Structural)]
pub struct FlushResult {
    pub device_id: DeviceId,
    pub durable_through: CommitSeq,
}

impl DurableEncode for FlushResult {
    #[verifier::opaque]
    open spec fn wire(&self) -> Seq<u8> {
        self.fields().wire()
    }

    open spec fn durable(&self) -> bool {
        self.fields().durable()
    }

    fn encode(&self, out: &mut DurableEncoder) -> (result: Result<(), StorageError>) {
        reveal(pair_wire);
        reveal(<FlushResult as DurableEncode>::wire);
        (&self.device_id, &self.durable_through).encode(out)
    }
}

impl FlushResult {
    pub open spec fn fields(self) -> (DeviceId, CommitSeq) {
        (self.device_id, self.durable_through)
    }
}

impl DurableCodec for FlushResult {
    open spec fn same(&self, other: &FlushResult) -> bool {
        *self == *other
    }

    proof fn lemma_unambiguous(a: &FlushResult, b: &FlushResult, a_tail: Seq<u8>, b_tail: Seq<u8>) {
        reveal(<FlushResult as DurableEncode>::wire);
        reveal(pair_same);
        <(DeviceId, CommitSeq)>::lemma_unambiguous(&a.fields(), &b.fields(), a_tail, b_tail);
        assert(a.same(b));
    }

    fn decode(input: &mut DurableDecoder<'_>) -> (result: Result<FlushResult, StorageError>) {
        reveal(<FlushResult as DurableEncode>::wire);
        let ghost whole = input.rest();
        match <(DeviceId, CommitSeq)>::decode(input) {
            Ok((device_id, durable_through)) => {
                let value = FlushResult { device_id, durable_through };
                proof {
                    lemma_starts_with_value(value, input.rest());
                }
                Ok(value)
            },
            Err(error) => {
                proof {
                    assert forall|value: FlushResult, tail: Seq<u8>|
                        value.durable() && #[trigger] (value.wire() + tail) == whole implies false by {
                        lemma_starts_with_value(value.fields(), tail);
                    }
                }
                Err(error)
            },
        }
    }
}

/// A deleted device.
#[derive(Clone, Copy, Debug, PartialEq, Eq, Structural)]
pub struct DeleteResult {
    pub device_id: DeviceId,
    pub commit_seq: CommitSeq,
}

impl DurableEncode for DeleteResult {
    #[verifier::opaque]
    open spec fn wire(&self) -> Seq<u8> {
        self.fields().wire()
    }

    open spec fn durable(&self) -> bool {
        self.fields().durable()
    }

    fn encode(&self, out: &mut DurableEncoder) -> (result: Result<(), StorageError>) {
        reveal(pair_wire);
        reveal(<DeleteResult as DurableEncode>::wire);
        (&self.device_id, &self.commit_seq).encode(out)
    }
}

impl DeleteResult {
    pub open spec fn fields(self) -> (DeviceId, CommitSeq) {
        (self.device_id, self.commit_seq)
    }
}

impl DurableCodec for DeleteResult {
    open spec fn same(&self, other: &DeleteResult) -> bool {
        *self == *other
    }

    proof fn lemma_unambiguous(a: &DeleteResult, b: &DeleteResult, a_tail: Seq<u8>, b_tail: Seq<u8>) {
        reveal(<DeleteResult as DurableEncode>::wire);
        reveal(pair_same);
        <(DeviceId, CommitSeq)>::lemma_unambiguous(&a.fields(), &b.fields(), a_tail, b_tail);
        assert(a.same(b));
    }

    fn decode(input: &mut DurableDecoder<'_>) -> (result: Result<DeleteResult, StorageError>) {
        reveal(<DeleteResult as DurableEncode>::wire);
        let ghost whole = input.rest();
        match <(DeviceId, CommitSeq)>::decode(input) {
            Ok((device_id, commit_seq)) => {
                let value = DeleteResult { device_id, commit_seq };
                proof {
                    lemma_starts_with_value(value, input.rest());
                }
                Ok(value)
            },
            Err(error) => {
                proof {
                    assert forall|value: DeleteResult, tail: Seq<u8>|
                        value.durable() && #[trigger] (value.wire() + tail) == whole implies false by {
                        lemma_starts_with_value(value.fields(), tail);
                    }
                }
                Err(error)
            },
        }
    }
}

/// A request for a copy of a device.
#[derive(Clone, Debug, PartialEq, Eq)]
pub struct ForkRequest {
    pub target: Option<DeviceId>,
    pub name: Option<String>,
}

impl DurableEncode for ForkRequest {
    #[verifier::opaque]
    open spec fn wire(&self) -> Seq<u8> {
        self.fields().wire()
    }

    open spec fn durable(&self) -> bool {
        self.fields().durable()
    }

    fn encode(&self, out: &mut DurableEncoder) -> (result: Result<(), StorageError>) {
        reveal(pair_wire);
        reveal(<ForkRequest as DurableEncode>::wire);
        (&self.target, &self.name).encode(out)
    }
}

impl ForkRequest {
    pub open spec fn fields(self) -> (Option<DeviceId>, Option<String>) {
        (self.target, self.name)
    }
}

impl DurableCodec for ForkRequest {
    open spec fn same(&self, other: &ForkRequest) -> bool {
        self.fields().same(&other.fields())
    }

    proof fn lemma_unambiguous(a: &ForkRequest, b: &ForkRequest, a_tail: Seq<u8>, b_tail: Seq<u8>) {
        reveal(<ForkRequest as DurableEncode>::wire);
        <(Option<DeviceId>, Option<String>)>::lemma_unambiguous(&a.fields(), &b.fields(), a_tail, b_tail);
        assert(a.same(b));
    }

    fn decode(input: &mut DurableDecoder<'_>) -> (result: Result<ForkRequest, StorageError>) {
        reveal(<ForkRequest as DurableEncode>::wire);
        let ghost whole = input.rest();
        match <(Option<DeviceId>, Option<String>)>::decode(input) {
            Ok((target, name)) => {
                let value = ForkRequest { target, name };
                proof {
                    lemma_starts_with_value(value, input.rest());
                }
                Ok(value)
            },
            Err(error) => {
                proof {
                    assert forall|value: ForkRequest, tail: Seq<u8>|
                        value.durable() && #[trigger] (value.wire() + tail) == whole implies false by {
                        lemma_starts_with_value(value.fields(), tail);
                    }
                }
                Err(error)
            },
        }
    }
}

/// Bytes that were read.
#[derive(Clone, Debug, PartialEq, Eq)]
pub struct ReadResponse {
    pub bytes: Vec<u8>,
}

impl DurableEncode for ReadResponse {
    #[verifier::opaque]
    open spec fn wire(&self) -> Seq<u8> {
        self.fields().wire()
    }

    open spec fn durable(&self) -> bool {
        self.fields().durable()
    }

    fn encode(&self, out: &mut DurableEncoder) -> (result: Result<(), StorageError>) {
        reveal(<ReadResponse as DurableEncode>::wire);
        self.bytes.encode(out)
    }
}

impl ReadResponse {
    pub open spec fn fields(self) -> Vec<u8> {
        self.bytes
    }
}

impl DurableCodec for ReadResponse {
    open spec fn same(&self, other: &ReadResponse) -> bool {
        self.fields().same(&other.fields())
    }

    proof fn lemma_unambiguous(a: &ReadResponse, b: &ReadResponse, a_tail: Seq<u8>, b_tail: Seq<u8>) {
        reveal(<ReadResponse as DurableEncode>::wire);
        <Vec<u8>>::lemma_unambiguous(&a.fields(), &b.fields(), a_tail, b_tail);
        assert(a.same(b));
    }

    fn decode(input: &mut DurableDecoder<'_>) -> (result: Result<ReadResponse, StorageError>) {
        reveal(<ReadResponse as DurableEncode>::wire);
        let ghost whole = input.rest();
        match <Vec<u8>>::decode(input) {
            Ok(bytes) => {
                let value = ReadResponse { bytes };
                proof {
                    lemma_starts_with_value(value, input.rest());
                }
                Ok(value)
            },
            Err(error) => {
                proof {
                    assert forall|value: ReadResponse, tail: Seq<u8>|
                        value.durable() && #[trigger] (value.wire() + tail) == whole implies false by {
                        lemma_starts_with_value(value.fields(), tail);
                    }
                }
                Err(error)
            },
        }
    }
}

/// A request to a block device service.
#[derive(Clone, Debug, PartialEq, Eq)]
pub enum BlockRequest {
    Create { request: CreateDeviceRequest },
    Info { device_id: DeviceId },
    Read { device_id: DeviceId, range: ByteRange, verification: ReadVerification },
    Write {
        device_id: DeviceId,
        offset: u64,
        bytes: Vec<u8>,
        payload_integrity: PayloadIntegrity,
        durability: WriteDurability,
    },
    CommitBatch { device_id: DeviceId, writes: Vec<BlockBatchWrite>, durability: WriteDurability },
    Flush { device_id: DeviceId, scope: FlushScope },
    WriteZeroes { device_id: DeviceId, range: ByteRange },
    Discard { device_id: DeviceId, range: ByteRange },
    Fork { source: DeviceId, request: ForkRequest },
    Restore { source: DeviceId, point: RestorePoint },
    Delete { device_id: DeviceId },
}

impl BlockRequest {
    /// The byte that tells the variants apart.
    pub open spec fn tag(&self) -> u8 {
        match self {
            BlockRequest::Create { .. } => 1,
            BlockRequest::Info { .. } => 2,
            BlockRequest::Read { .. } => 3,
            BlockRequest::Write { .. } => 4,
            BlockRequest::CommitBatch { .. } => 11,
            BlockRequest::Flush { .. } => 5,
            BlockRequest::WriteZeroes { .. } => 6,
            BlockRequest::Discard { .. } => 7,
            BlockRequest::Fork { .. } => 8,
            BlockRequest::Restore { .. } => 9,
            BlockRequest::Delete { .. } => 10,
        }
    }

    /// The bytes behind the tag.
    pub open spec fn body(&self) -> Seq<u8> {
        match *self {
            BlockRequest::Create { request } => request.wire(),
            BlockRequest::Info { device_id } => device_id.wire(),
            BlockRequest::Read { device_id, range, verification } => (device_id, (range, verification)).wire(),
            BlockRequest::Write { device_id, offset, bytes, payload_integrity, durability } => ((device_id, (offset, (bytes, payload_integrity))), durability).wire(),
            BlockRequest::CommitBatch { device_id, writes, durability } => (device_id, (writes, durability)).wire(),
            BlockRequest::Flush { device_id, scope } => (device_id, scope).wire(),
            BlockRequest::WriteZeroes { device_id, range } => (device_id, range).wire(),
            BlockRequest::Discard { device_id, range } => (device_id, range).wire(),
            BlockRequest::Fork { source, request } => (source, request).wire(),
            BlockRequest::Restore { source, point } => (source, point).wire(),
            BlockRequest::Delete { device_id } => device_id.wire(),
        }
    }
}

impl DurableEncode for BlockRequest {
    #[verifier::opaque]
    open spec fn wire(&self) -> Seq<u8> {
        seq![self.tag()] + self.body()
    }

    open spec fn durable(&self) -> bool {
        match *self {
            BlockRequest::Create { request } => request.durable(),
            BlockRequest::Info { device_id } => device_id.durable(),
            BlockRequest::Read { device_id, range, verification } => (device_id, (range, verification)).durable(),
            BlockRequest::Write { device_id, offset, bytes, payload_integrity, durability } => ((device_id, (offset, (bytes, payload_integrity))), durability).durable(),
            BlockRequest::CommitBatch { device_id, writes, durability } => (device_id, (writes, durability)).durable(),
            BlockRequest::Flush { device_id, scope } => (device_id, scope).durable(),
            BlockRequest::WriteZeroes { device_id, range } => (device_id, range).durable(),
            BlockRequest::Discard { device_id, range } => (device_id, range).durable(),
            BlockRequest::Fork { source, request } => (source, request).durable(),
            BlockRequest::Restore { source, point } => (source, point).durable(),
            BlockRequest::Delete { device_id } => device_id.durable(),
        }
    }

    fn encode(&self, out: &mut DurableEncoder) -> (result: Result<(), StorageError>) {
        reveal(pair_wire);
        reveal(<BlockRequest as DurableEncode>::wire);
        match self {
            BlockRequest::Create { request } => {
                out.put_u8(1);
                request.encode(out)?;
            },
            BlockRequest::Info { device_id } => {
                out.put_u8(2);
                device_id.encode(out)?;
            },
            BlockRequest::Read { device_id, range, verification } => {
                out.put_u8(3);
                (device_id, (range, verification)).encode(out)?;
            },
            BlockRequest::Write { device_id, offset, bytes, payload_integrity, durability } => {
                out.put_u8(4);
                ((device_id, (offset, (bytes, payload_integrity))), durability).encode(out)?;
            },
            BlockRequest::CommitBatch { device_id, writes, durability } => {
                out.put_u8(11);
                (device_id, (writes, durability)).encode(out)?;
            },
            BlockRequest::Flush { device_id, scope } => {
                out.put_u8(5);
                (device_id, scope).encode(out)?;
            },
            BlockRequest::WriteZeroes { device_id, range } => {
                out.put_u8(6);
                (device_id, range).encode(out)?;
            },
            BlockRequest::Discard { device_id, range } => {
                out.put_u8(7);
                (device_id, range).encode(out)?;
            },
            BlockRequest::Fork { source, request } => {
                out.put_u8(8);
                (source, request).encode(out)?;
            },
            BlockRequest::Restore { source, point } => {
                out.put_u8(9);
                (source, point).encode(out)?;
            },
            BlockRequest::Delete { device_id } => {
                out.put_u8(10);
                device_id.encode(out)?;
            },
        }
        assert(out@ =~= old(out)@ + self.wire());
        Ok(())
    }
}

impl DurableCodec for BlockRequest {
    open spec fn same(&self, other: &BlockRequest) -> bool {
        match (*self, *other) {
            (BlockRequest::Create { request }, BlockRequest::Create { request: other_request }) => {
                request.same(&other_request)
            },
            (BlockRequest::Info { device_id }, BlockRequest::Info { device_id: other_device_id }) => {
                device_id.same(&other_device_id)
            },
            (BlockRequest::Read { device_id, range, verification }, BlockRequest::Read { device_id: other_device_id, range: other_range, verification: other_verification }) => {
                (device_id, (range, verification)).same(&(other_device_id, (other_range, other_verification)))
            },
            (BlockRequest::Write { device_id, offset, bytes, payload_integrity, durability }, BlockRequest::Write { device_id: other_device_id, offset: other_offset, bytes: other_bytes, payload_integrity: other_payload_integrity, durability: other_durability }) => {
                ((device_id, (offset, (bytes, payload_integrity))), durability).same(&((other_device_id, (other_offset, (other_bytes, other_payload_integrity))), other_durability))
            },
            (BlockRequest::CommitBatch { device_id, writes, durability }, BlockRequest::CommitBatch { device_id: other_device_id, writes: other_writes, durability: other_durability }) => {
                (device_id, (writes, durability)).same(&(other_device_id, (other_writes, other_durability)))
            },
            (BlockRequest::Flush { device_id, scope }, BlockRequest::Flush { device_id: other_device_id, scope: other_scope }) => {
                (device_id, scope).same(&(other_device_id, other_scope))
            },
            (BlockRequest::WriteZeroes { device_id, range }, BlockRequest::WriteZeroes { device_id: other_device_id, range: other_range }) => {
                (device_id, range).same(&(other_device_id, other_range))
            },
            (BlockRequest::Discard { device_id, range }, BlockRequest::Discard { device_id: other_device_id, range: other_range }) => {
                (device_id, range).same(&(other_device_id, other_range))
            },
            (BlockRequest::Fork { source, request }, BlockRequest::Fork { source: other_source, request: other_request }) => {
                (source, request).same(&(other_source, other_request))
            },
            (BlockRequest::Restore { source, point }, BlockRequest::Restore { source: other_source, point: other_point }) => {
                (source, point).same(&(other_source, other_point))
            },
            (BlockRequest::Delete { device_id }, BlockRequest::Delete { device_id: other_device_id }) => {
                device_id.same(&other_device_id)
            },
            _ => false,
        }
    }

    proof fn lemma_unambiguous(a: &BlockRequest, b: &BlockRequest, a_tail: Seq<u8>, b_tail: Seq<u8>) {
        reveal(<BlockRequest as DurableEncode>::wire);
        lemma_drop_tag(a.tag(), a.body(), a_tail);
        lemma_drop_tag(b.tag(), b.body(), b_tail);
        match (*a, *b) {
            (BlockRequest::Create { request }, BlockRequest::Create { request: b_request }) => {
                CreateDeviceRequest::lemma_unambiguous(&request, &b_request, a_tail, b_tail);
            },
            (BlockRequest::Info { device_id }, BlockRequest::Info { device_id: b_device_id }) => {
                DeviceId::lemma_unambiguous(&device_id, &b_device_id, a_tail, b_tail);
            },
            (BlockRequest::Read { device_id, range, verification }, BlockRequest::Read { device_id: b_device_id, range: b_range, verification: b_verification }) => {
                <(DeviceId, (ByteRange, ReadVerification))>::lemma_unambiguous(&(device_id, (range, verification)), &(b_device_id, (b_range, b_verification)), a_tail, b_tail);
            },
            (BlockRequest::Write { device_id, offset, bytes, payload_integrity, durability }, BlockRequest::Write { device_id: b_device_id, offset: b_offset, bytes: b_bytes, payload_integrity: b_payload_integrity, durability: b_durability }) => {
                <((DeviceId, (u64, (Vec<u8>, PayloadIntegrity))), WriteDurability)>::lemma_unambiguous(&((device_id, (offset, (bytes, payload_integrity))), durability), &((b_device_id, (b_offset, (b_bytes, b_payload_integrity))), b_durability), a_tail, b_tail);
            },
            (BlockRequest::CommitBatch { device_id, writes, durability }, BlockRequest::CommitBatch { device_id: b_device_id, writes: b_writes, durability: b_durability }) => {
                <(DeviceId, (Vec<BlockBatchWrite>, WriteDurability))>::lemma_unambiguous(&(device_id, (writes, durability)), &(b_device_id, (b_writes, b_durability)), a_tail, b_tail);
            },
            (BlockRequest::Flush { device_id, scope }, BlockRequest::Flush { device_id: b_device_id, scope: b_scope }) => {
                <(DeviceId, FlushScope)>::lemma_unambiguous(&(device_id, scope), &(b_device_id, b_scope), a_tail, b_tail);
            },
            (BlockRequest::WriteZeroes { device_id, range }, BlockRequest::WriteZeroes { device_id: b_device_id, range: b_range }) => {
                <(DeviceId, ByteRange)>::lemma_unambiguous(&(device_id, range), &(b_device_id, b_range), a_tail, b_tail);
            },
            (BlockRequest::Discard { device_id, range }, BlockRequest::Discard { device_id: b_device_id, range: b_range }) => {
                <(DeviceId, ByteRange)>::lemma_unambiguous(&(device_id, range), &(b_device_id, b_range), a_tail, b_tail);
            },
            (BlockRequest::Fork { source, request }, BlockRequest::Fork { source: b_source, request: b_request }) => {
                <(DeviceId, ForkRequest)>::lemma_unambiguous(&(source, request), &(b_source, b_request), a_tail, b_tail);
            },
            (BlockRequest::Restore { source, point }, BlockRequest::Restore { source: b_source, point: b_point }) => {
                <(DeviceId, RestorePoint)>::lemma_unambiguous(&(source, point), &(b_source, b_point), a_tail, b_tail);
            },
            (BlockRequest::Delete { device_id }, BlockRequest::Delete { device_id: b_device_id }) => {
                DeviceId::lemma_unambiguous(&device_id, &b_device_id, a_tail, b_tail);
            },
            _ => {},
        }
    }

    #[verifier::rlimit(100)]
    #[verifier::spinoff_prover]
    fn decode(input: &mut DurableDecoder<'_>) -> (result: Result<BlockRequest, StorageError>) {
        reveal(<BlockRequest as DurableEncode>::wire);
        let ghost whole = input.rest();
        let tag: u8 = match input.u8() {
            Ok(tag) => tag,
            Err(error) => {
                proof {
                    assert forall|value: BlockRequest, tail: Seq<u8>| #[trigger]
                        (value.wire() + tail) == whole implies false by {
                        assert((value.wire() + tail).len() >= 1);
                    }
                }
                return Err(error);
            },
        };
        let ghost rest = input.rest();
        proof {
            assert forall|value: BlockRequest, tail: Seq<u8>| #[trigger]
                (value.wire() + tail) == whole implies value.tag() == tag && rest == value.body()
                + tail by {
                lemma_drop_tag(value.tag(), value.body(), tail);
                assert(whole.skip(1) =~= rest);
            }
        }
        match tag {
            1 => match CreateDeviceRequest::decode(input) {
                Ok(request) => {
                    let value = BlockRequest::Create { request };
                    proof {
                        assert(whole =~= value.wire() + input.rest());
                        lemma_starts_with_value(value, input.rest());
                    }
                    Ok(value)
                },
                Err(error) => {
                    proof {
                        assert forall|value: BlockRequest, tail: Seq<u8>|
                            value.durable() && #[trigger] (value.wire() + tail) == whole implies false by {
                            match value {
                                BlockRequest::Create { request } => {
                                    lemma_starts_with_value(request, tail);
                                },
                                _ => {},
                            }
                        }
                    }
                    Err(error)
                },
            },
            2 => match DeviceId::decode(input) {
                Ok(device_id) => {
                    let value = BlockRequest::Info { device_id };
                    proof {
                        assert(whole =~= value.wire() + input.rest());
                        lemma_starts_with_value(value, input.rest());
                    }
                    Ok(value)
                },
                Err(error) => {
                    proof {
                        assert forall|value: BlockRequest, tail: Seq<u8>|
                            value.durable() && #[trigger] (value.wire() + tail) == whole implies false by {
                            match value {
                                BlockRequest::Info { device_id } => {
                                    lemma_starts_with_value(device_id, tail);
                                },
                                _ => {},
                            }
                        }
                    }
                    Err(error)
                },
            },
            3 => match <(DeviceId, (ByteRange, ReadVerification))>::decode(input) {
                Ok((device_id, (range, verification))) => {
                    let value = BlockRequest::Read { device_id, range, verification };
                    proof {
                        assert(whole =~= value.wire() + input.rest());
                        lemma_starts_with_value(value, input.rest());
                    }
                    Ok(value)
                },
                Err(error) => {
                    proof {
                        assert forall|value: BlockRequest, tail: Seq<u8>|
                            value.durable() && #[trigger] (value.wire() + tail) == whole implies false by {
                            match value {
                                BlockRequest::Read { device_id, range, verification } => {
                                    lemma_starts_with_value((device_id, (range, verification)), tail);
                                },
                                _ => {},
                            }
                        }
                    }
                    Err(error)
                },
            },
            4 => match <((DeviceId, (u64, (Vec<u8>, PayloadIntegrity))), WriteDurability)>::decode(input) {
                Ok(((device_id, (offset, (bytes, payload_integrity))), durability)) => {
                    let value = BlockRequest::Write { device_id, offset, bytes, payload_integrity, durability };
                    proof {
                        assert(whole =~= value.wire() + input.rest());
                        lemma_starts_with_value(value, input.rest());
                    }
                    Ok(value)
                },
                Err(error) => {
                    proof {
                        assert forall|value: BlockRequest, tail: Seq<u8>|
                            value.durable() && #[trigger] (value.wire() + tail) == whole implies false by {
                            match value {
                                BlockRequest::Write { device_id, offset, bytes, payload_integrity, durability } => {
                                    lemma_starts_with_value(((device_id, (offset, (bytes, payload_integrity))), durability), tail);
                                },
                                _ => {},
                            }
                        }
                    }
                    Err(error)
                },
            },
            11 => match <(DeviceId, (Vec<BlockBatchWrite>, WriteDurability))>::decode(input) {
                Ok((device_id, (writes, durability))) => {
                    let value = BlockRequest::CommitBatch { device_id, writes, durability };
                    proof {
                        assert(whole =~= value.wire() + input.rest());
                        lemma_starts_with_value(value, input.rest());
                    }
                    Ok(value)
                },
                Err(error) => {
                    proof {
                        assert forall|value: BlockRequest, tail: Seq<u8>|
                            value.durable() && #[trigger] (value.wire() + tail) == whole implies false by {
                            match value {
                                BlockRequest::CommitBatch { device_id, writes, durability } => {
                                    lemma_starts_with_value((device_id, (writes, durability)), tail);
                                },
                                _ => {},
                            }
                        }
                    }
                    Err(error)
                },
            },
            5 => match <(DeviceId, FlushScope)>::decode(input) {
                Ok((device_id, scope)) => {
                    let value = BlockRequest::Flush { device_id, scope };
                    proof {
                        assert(whole =~= value.wire() + input.rest());
                        lemma_starts_with_value(value, input.rest());
                    }
                    Ok(value)
                },
                Err(error) => {
                    proof {
                        assert forall|value: BlockRequest, tail: Seq<u8>|
                            value.durable() && #[trigger] (value.wire() + tail) == whole implies false by {
                            match value {
                                BlockRequest::Flush { device_id, scope } => {
                                    lemma_starts_with_value((device_id, scope), tail);
                                },
                                _ => {},
                            }
                        }
                    }
                    Err(error)
                },
            },
            6 => match <(DeviceId, ByteRange)>::decode(input) {
                Ok((device_id, range)) => {
                    let value = BlockRequest::WriteZeroes { device_id, range };
                    proof {
                        assert(whole =~= value.wire() + input.rest());
                        lemma_starts_with_value(value, input.rest());
                    }
                    Ok(value)
                },
                Err(error) => {
                    proof {
                        assert forall|value: BlockRequest, tail: Seq<u8>|
                            value.durable() && #[trigger] (value.wire() + tail) == whole implies false by {
                            match value {
                                BlockRequest::WriteZeroes { device_id, range } => {
                                    lemma_starts_with_value((device_id, range), tail);
                                },
                                _ => {},
                            }
                        }
                    }
                    Err(error)
                },
            },
            7 => match <(DeviceId, ByteRange)>::decode(input) {
                Ok((device_id, range)) => {
                    let value = BlockRequest::Discard { device_id, range };
                    proof {
                        assert(whole =~= value.wire() + input.rest());
                        lemma_starts_with_value(value, input.rest());
                    }
                    Ok(value)
                },
                Err(error) => {
                    proof {
                        assert forall|value: BlockRequest, tail: Seq<u8>|
                            value.durable() && #[trigger] (value.wire() + tail) == whole implies false by {
                            match value {
                                BlockRequest::Discard { device_id, range } => {
                                    lemma_starts_with_value((device_id, range), tail);
                                },
                                _ => {},
                            }
                        }
                    }
                    Err(error)
                },
            },
            8 => match <(DeviceId, ForkRequest)>::decode(input) {
                Ok((source, request)) => {
                    let value = BlockRequest::Fork { source, request };
                    proof {
                        assert(whole =~= value.wire() + input.rest());
                        lemma_starts_with_value(value, input.rest());
                    }
                    Ok(value)
                },
                Err(error) => {
                    proof {
                        assert forall|value: BlockRequest, tail: Seq<u8>|
                            value.durable() && #[trigger] (value.wire() + tail) == whole implies false by {
                            match value {
                                BlockRequest::Fork { source, request } => {
                                    lemma_starts_with_value((source, request), tail);
                                },
                                _ => {},
                            }
                        }
                    }
                    Err(error)
                },
            },
            9 => match <(DeviceId, RestorePoint)>::decode(input) {
                Ok((source, point)) => {
                    let value = BlockRequest::Restore { source, point };
                    proof {
                        assert(whole =~= value.wire() + input.rest());
                        lemma_starts_with_value(value, input.rest());
                    }
                    Ok(value)
                },
                Err(error) => {
                    proof {
                        assert forall|value: BlockRequest, tail: Seq<u8>|
                            value.durable() && #[trigger] (value.wire() + tail) == whole implies false by {
                            match value {
                                BlockRequest::Restore { source, point } => {
                                    lemma_starts_with_value((source, point), tail);
                                },
                                _ => {},
                            }
                        }
                    }
                    Err(error)
                },
            },
            10 => match DeviceId::decode(input) {
                Ok(device_id) => {
                    let value = BlockRequest::Delete { device_id };
                    proof {
                        assert(whole =~= value.wire() + input.rest());
                        lemma_starts_with_value(value, input.rest());
                    }
                    Ok(value)
                },
                Err(error) => {
                    proof {
                        assert forall|value: BlockRequest, tail: Seq<u8>|
                            value.durable() && #[trigger] (value.wire() + tail) == whole implies false by {
                            match value {
                                BlockRequest::Delete { device_id } => {
                                    lemma_starts_with_value(device_id, tail);
                                },
                                _ => {},
                            }
                        }
                    }
                    Err(error)
                },
            },
            _ => Err(durable_codec_error("invalid block request tag")),
        }
    }
}

/// An answer of a block device service.
#[derive(Clone, Debug, PartialEq, Eq)]
pub enum BlockResponse {
    Created(DeviceId),
    Info(DeviceInfo),
    Read(ReadResponse),
    Write(WriteCommit),
    BatchCommitted(BlockBatchCommit),
    Flush(FlushResult),
    Forked(DeviceId),
    Restored(DeviceId),
    Deleted(DeleteResult),
}

impl BlockResponse {
    /// The byte that tells the variants apart.
    pub open spec fn tag(&self) -> u8 {
        match self {
            BlockResponse::Created(_) => 1,
            BlockResponse::Info(_) => 2,
            BlockResponse::Read(_) => 3,
            BlockResponse::Write(_) => 4,
            BlockResponse::BatchCommitted(_) => 9,
            BlockResponse::Flush(_) => 5,
            BlockResponse::Forked(_) => 6,
            BlockResponse::Restored(_) => 7,
            BlockResponse::Deleted(_) => 8,
        }
    }

    /// The bytes behind the tag.
    pub open spec fn body(&self) -> Seq<u8> {
        match *self {
            BlockResponse::Created(device_id) => device_id.wire(),
            BlockResponse::Info(info) => info.wire(),
            BlockResponse::Read(read) => read.wire(),
            BlockResponse::Write(commit) => commit.wire(),
            BlockResponse::BatchCommitted(commit) => commit.wire(),
            BlockResponse::Flush(flush) => flush.wire(),
            BlockResponse::Forked(device_id) => device_id.wire(),
            BlockResponse::Restored(device_id) => device_id.wire(),
            BlockResponse::Deleted(deleted) => deleted.wire(),
        }
    }
}

impl DurableEncode for BlockResponse {
    #[verifier::opaque]
    open spec fn wire(&self) -> Seq<u8> {
        seq![self.tag()] + self.body()
    }

    open spec fn durable(&self) -> bool {
        match *self {
            BlockResponse::Created(device_id) => device_id.durable(),
            BlockResponse::Info(info) => info.durable(),
            BlockResponse::Read(read) => read.durable(),
            BlockResponse::Write(commit) => commit.durable(),
            BlockResponse::BatchCommitted(commit) => commit.durable(),
            BlockResponse::Flush(flush) => flush.durable(),
            BlockResponse::Forked(device_id) => device_id.durable(),
            BlockResponse::Restored(device_id) => device_id.durable(),
            BlockResponse::Deleted(deleted) => deleted.durable(),
        }
    }

    fn encode(&self, out: &mut DurableEncoder) -> (result: Result<(), StorageError>) {
        reveal(<BlockResponse as DurableEncode>::wire);
        match self {
            BlockResponse::Created(device_id) => {
                out.put_u8(1);
                device_id.encode(out)?;
            },
            BlockResponse::Info(info) => {
                out.put_u8(2);
                info.encode(out)?;
            },
            BlockResponse::Read(read) => {
                out.put_u8(3);
                read.encode(out)?;
            },
            BlockResponse::Write(commit) => {
                out.put_u8(4);
                commit.encode(out)?;
            },
            BlockResponse::BatchCommitted(commit) => {
                out.put_u8(9);
                commit.encode(out)?;
            },
            BlockResponse::Flush(flush) => {
                out.put_u8(5);
                flush.encode(out)?;
            },
            BlockResponse::Forked(device_id) => {
                out.put_u8(6);
                device_id.encode(out)?;
            },
            BlockResponse::Restored(device_id) => {
                out.put_u8(7);
                device_id.encode(out)?;
            },
            BlockResponse::Deleted(deleted) => {
                out.put_u8(8);
                deleted.encode(out)?;
            },
        }
        assert(out@ =~= old(out)@ + self.wire());
        Ok(())
    }
}

impl DurableCodec for BlockResponse {
    open spec fn same(&self, other: &BlockResponse) -> bool {
        match (*self, *other) {
            (BlockResponse::Created(device_id), BlockResponse::Created(other_device_id)) => {
                device_id.same(&other_device_id)
            },
            (BlockResponse::Info(info), BlockResponse::Info(other_info)) => {
                info.same(&other_info)
            },
            (BlockResponse::Read(read), BlockResponse::Read(other_read)) => {
                read.same(&other_read)
            },
            (BlockResponse::Write(commit), BlockResponse::Write(other_commit)) => {
                commit.same(&other_commit)
            },
            (BlockResponse::BatchCommitted(commit), BlockResponse::BatchCommitted(other_commit)) => {
                commit.same(&other_commit)
            },
            (BlockResponse::Flush(flush), BlockResponse::Flush(other_flush)) => {
                flush.same(&other_flush)
            },
            (BlockResponse::Forked(device_id), BlockResponse::Forked(other_device_id)) => {
                device_id.same(&other_device_id)
            },
            (BlockResponse::Restored(device_id), BlockResponse::Restored(other_device_id)) => {
                device_id.same(&other_device_id)
            },
            (BlockResponse::Deleted(deleted), BlockResponse::Deleted(other_deleted)) => {
                deleted.same(&other_deleted)
            },
            _ => false,
        }
    }

    proof fn lemma_unambiguous(a: &BlockResponse, b: &BlockResponse, a_tail: Seq<u8>, b_tail: Seq<u8>) {
        reveal(<BlockResponse as DurableEncode>::wire);
        lemma_drop_tag(a.tag(), a.body(), a_tail);
        lemma_drop_tag(b.tag(), b.body(), b_tail);
        match (*a, *b) {
            (BlockResponse::Created(device_id), BlockResponse::Created(b_device_id)) => {
                DeviceId::lemma_unambiguous(&device_id, &b_device_id, a_tail, b_tail);
            },
            (BlockResponse::Info(info), BlockResponse::Info(b_info)) => {
                DeviceInfo::lemma_unambiguous(&info, &b_info, a_tail, b_tail);
            },
            (BlockResponse::Read(read), BlockResponse::Read(b_read)) => {
                ReadResponse::lemma_unambiguous(&read, &b_read, a_tail, b_tail);
            },
            (BlockResponse::Write(commit), BlockResponse::Write(b_commit)) => {
                WriteCommit::lemma_unambiguous(&commit, &b_commit, a_tail, b_tail);
            },
            (BlockResponse::BatchCommitted(commit), BlockResponse::BatchCommitted(b_commit)) => {
                BlockBatchCommit::lemma_unambiguous(&commit, &b_commit, a_tail, b_tail);
            },
            (BlockResponse::Flush(flush), BlockResponse::Flush(b_flush)) => {
                FlushResult::lemma_unambiguous(&flush, &b_flush, a_tail, b_tail);
            },
            (BlockResponse::Forked(device_id), BlockResponse::Forked(b_device_id)) => {
                DeviceId::lemma_unambiguous(&device_id, &b_device_id, a_tail, b_tail);
            },
            (BlockResponse::Restored(device_id), BlockResponse::Restored(b_device_id)) => {
                DeviceId::lemma_unambiguous(&device_id, &b_device_id, a_tail, b_tail);
            },
            (BlockResponse::Deleted(deleted), BlockResponse::Deleted(b_deleted)) => {
                DeleteResult::lemma_unambiguous(&deleted, &b_deleted, a_tail, b_tail);
            },
            _ => {},
        }
    }

    #[verifier::rlimit(40)]
    fn decode(input: &mut DurableDecoder<'_>) -> (result: Result<BlockResponse, StorageError>) {
        reveal(<BlockResponse as DurableEncode>::wire);
        let ghost whole = input.rest();
        let tag: u8 = match input.u8() {
            Ok(tag) => tag,
            Err(error) => {
                proof {
                    assert forall|value: BlockResponse, tail: Seq<u8>| #[trigger]
                        (value.wire() + tail) == whole implies false by {
                        assert((value.wire() + tail).len() >= 1);
                    }
                }
                return Err(error);
            },
        };
        let ghost rest = input.rest();
        proof {
            assert forall|value: BlockResponse, tail: Seq<u8>| #[trigger]
                (value.wire() + tail) == whole implies value.tag() == tag && rest == value.body()
                + tail by {
                lemma_drop_tag(value.tag(), value.body(), tail);
                assert(whole.skip(1) =~= rest);
            }
        }
        match tag {
            1 => match DeviceId::decode(input) {
                Ok(device_id) => {
                    let value = BlockResponse::Created(device_id);
                    proof {
                        assert(whole =~= value.wire() + input.rest());
                        lemma_starts_with_value(value, input.rest());
                    }
                    Ok(value)
                },
                Err(error) => {
                    proof {
                        assert forall|value: BlockResponse, tail: Seq<u8>|
                            value.durable() && #[trigger] (value.wire() + tail) == whole implies false by {
                            match value {
                                BlockResponse::Created(device_id) => {
                                    lemma_starts_with_value(device_id, tail);
                                },
                                _ => {},
                            }
                        }
                    }
                    Err(error)
                },
            },
            2 => match DeviceInfo::decode(input) {
                Ok(info) => {
                    let value = BlockResponse::Info(info);
                    proof {
                        assert(whole =~= value.wire() + input.rest());
                        lemma_starts_with_value(value, input.rest());
                    }
                    Ok(value)
                },
                Err(error) => {
                    proof {
                        assert forall|value: BlockResponse, tail: Seq<u8>|
                            value.durable() && #[trigger] (value.wire() + tail) == whole implies false by {
                            match value {
                                BlockResponse::Info(info) => {
                                    lemma_starts_with_value(info, tail);
                                },
                                _ => {},
                            }
                        }
                    }
                    Err(error)
                },
            },
            3 => match ReadResponse::decode(input) {
                Ok(read) => {
                    let value = BlockResponse::Read(read);
                    proof {
                        assert(whole =~= value.wire() + input.rest());
                        lemma_starts_with_value(value, input.rest());
                    }
                    Ok(value)
                },
                Err(error) => {
                    proof {
                        assert forall|value: BlockResponse, tail: Seq<u8>|
                            value.durable() && #[trigger] (value.wire() + tail) == whole implies false by {
                            match value {
                                BlockResponse::Read(read) => {
                                    lemma_starts_with_value(read, tail);
                                },
                                _ => {},
                            }
                        }
                    }
                    Err(error)
                },
            },
            4 => match WriteCommit::decode(input) {
                Ok(commit) => {
                    let value = BlockResponse::Write(commit);
                    proof {
                        assert(whole =~= value.wire() + input.rest());
                        lemma_starts_with_value(value, input.rest());
                    }
                    Ok(value)
                },
                Err(error) => {
                    proof {
                        assert forall|value: BlockResponse, tail: Seq<u8>|
                            value.durable() && #[trigger] (value.wire() + tail) == whole implies false by {
                            match value {
                                BlockResponse::Write(commit) => {
                                    lemma_starts_with_value(commit, tail);
                                },
                                _ => {},
                            }
                        }
                    }
                    Err(error)
                },
            },
            9 => match BlockBatchCommit::decode(input) {
                Ok(commit) => {
                    let value = BlockResponse::BatchCommitted(commit);
                    proof {
                        assert(whole =~= value.wire() + input.rest());
                        lemma_starts_with_value(value, input.rest());
                    }
                    Ok(value)
                },
                Err(error) => {
                    proof {
                        assert forall|value: BlockResponse, tail: Seq<u8>|
                            value.durable() && #[trigger] (value.wire() + tail) == whole implies false by {
                            match value {
                                BlockResponse::BatchCommitted(commit) => {
                                    lemma_starts_with_value(commit, tail);
                                },
                                _ => {},
                            }
                        }
                    }
                    Err(error)
                },
            },
            5 => match FlushResult::decode(input) {
                Ok(flush) => {
                    let value = BlockResponse::Flush(flush);
                    proof {
                        assert(whole =~= value.wire() + input.rest());
                        lemma_starts_with_value(value, input.rest());
                    }
                    Ok(value)
                },
                Err(error) => {
                    proof {
                        assert forall|value: BlockResponse, tail: Seq<u8>|
                            value.durable() && #[trigger] (value.wire() + tail) == whole implies false by {
                            match value {
                                BlockResponse::Flush(flush) => {
                                    lemma_starts_with_value(flush, tail);
                                },
                                _ => {},
                            }
                        }
                    }
                    Err(error)
                },
            },
            6 => match DeviceId::decode(input) {
                Ok(device_id) => {
                    let value = BlockResponse::Forked(device_id);
                    proof {
                        assert(whole =~= value.wire() + input.rest());
                        lemma_starts_with_value(value, input.rest());
                    }
                    Ok(value)
                },
                Err(error) => {
                    proof {
                        assert forall|value: BlockResponse, tail: Seq<u8>|
                            value.durable() && #[trigger] (value.wire() + tail) == whole implies false by {
                            match value {
                                BlockResponse::Forked(device_id) => {
                                    lemma_starts_with_value(device_id, tail);
                                },
                                _ => {},
                            }
                        }
                    }
                    Err(error)
                },
            },
            7 => match DeviceId::decode(input) {
                Ok(device_id) => {
                    let value = BlockResponse::Restored(device_id);
                    proof {
                        assert(whole =~= value.wire() + input.rest());
                        lemma_starts_with_value(value, input.rest());
                    }
                    Ok(value)
                },
                Err(error) => {
                    proof {
                        assert forall|value: BlockResponse, tail: Seq<u8>|
                            value.durable() && #[trigger] (value.wire() + tail) == whole implies false by {
                            match value {
                                BlockResponse::Restored(device_id) => {
                                    lemma_starts_with_value(device_id, tail);
                                },
                                _ => {},
                            }
                        }
                    }
                    Err(error)
                },
            },
            8 => match DeleteResult::decode(input) {
                Ok(deleted) => {
                    let value = BlockResponse::Deleted(deleted);
                    proof {
                        assert(whole =~= value.wire() + input.rest());
                        lemma_starts_with_value(value, input.rest());
                    }
                    Ok(value)
                },
                Err(error) => {
                    proof {
                        assert forall|value: BlockResponse, tail: Seq<u8>|
                            value.durable() && #[trigger] (value.wire() + tail) == whole implies false by {
                            match value {
                                BlockResponse::Deleted(deleted) => {
                                    lemma_starts_with_value(deleted, tail);
                                },
                                _ => {},
                            }
                        }
                    }
                    Err(error)
                },
            },
            _ => Err(durable_codec_error("invalid block response tag")),
        }
    }
}

/// A block request with its sender and deadline.
#[derive(Clone, Debug, PartialEq, Eq)]
pub struct BlockRequestEnvelope {
    pub request_id: RequestId,
    pub client_epoch: ClientEpoch,
    pub deadline: Option<LogicalDeadline>,
    pub request: BlockRequest,
}

impl DurableEncode for BlockRequestEnvelope {
    #[verifier::opaque]
    open spec fn wire(&self) -> Seq<u8> {
        self.fields().wire()
    }

    open spec fn durable(&self) -> bool {
        self.fields().durable()
    }

    fn encode(&self, out: &mut DurableEncoder) -> (result: Result<(), StorageError>) {
        reveal(pair_wire);
        reveal(<BlockRequestEnvelope as DurableEncode>::wire);
        (&self.request_id, (&self.client_epoch, (&self.deadline, &self.request))).encode(out)
    }
}

impl BlockRequestEnvelope {
    pub open spec fn fields(self) -> (RequestId, (ClientEpoch, (Option<LogicalDeadline>, BlockRequest))) {
        (self.request_id, (self.client_epoch, (self.deadline, self.request)))
    }
}

impl DurableCodec for BlockRequestEnvelope {
    open spec fn same(&self, other: &BlockRequestEnvelope) -> bool {
        self.fields().same(&other.fields())
    }

    proof fn lemma_unambiguous(a: &BlockRequestEnvelope, b: &BlockRequestEnvelope, a_tail: Seq<u8>, b_tail: Seq<u8>) {
        reveal(<BlockRequestEnvelope as DurableEncode>::wire);
        <(RequestId, (ClientEpoch, (Option<LogicalDeadline>, BlockRequest)))>::lemma_unambiguous(&a.fields(), &b.fields(), a_tail, b_tail);
        assert(a.same(b));
    }

    fn decode(input: &mut DurableDecoder<'_>) -> (result: Result<BlockRequestEnvelope, StorageError>) {
        reveal(<BlockRequestEnvelope as DurableEncode>::wire);
        let ghost whole = input.rest();
        match <(RequestId, (ClientEpoch, (Option<LogicalDeadline>, BlockRequest)))>::decode(input) {
            Ok((request_id, (client_epoch, (deadline, request)))) => {
                let value = BlockRequestEnvelope { request_id, client_epoch, deadline, request };
                proof {
                    lemma_starts_with_value(value, input.rest());
                }
                Ok(value)
            },
            Err(error) => {
                proof {
                    assert forall|value: BlockRequestEnvelope, tail: Seq<u8>|
                        value.durable() && #[trigger] (value.wire() + tail) == whole implies false by {
                        lemma_starts_with_value(value.fields(), tail);
                    }
                }
                Err(error)
            },
        }
    }
}

/// A block answer with the request it answers.
#[derive(Clone, Debug, PartialEq, Eq)]
pub struct BlockResponseEnvelope {
    pub request_id: RequestId,
    pub response: BlockResponse,
}

impl DurableEncode for BlockResponseEnvelope {
    #[verifier::opaque]
    open spec fn wire(&self) -> Seq<u8> {
        self.fields().wire()
    }

    open spec fn durable(&self) -> bool {
        self.fields().durable()
    }

    fn encode(&self, out: &mut DurableEncoder) -> (result: Result<(), StorageError>) {
        reveal(pair_wire);
        reveal(<BlockResponseEnvelope as DurableEncode>::wire);
        (&self.request_id, &self.response).encode(out)
    }
}

impl BlockResponseEnvelope {
    pub open spec fn fields(self) -> (RequestId, BlockResponse) {
        (self.request_id, self.response)
    }
}

impl DurableCodec for BlockResponseEnvelope {
    open spec fn same(&self, other: &BlockResponseEnvelope) -> bool {
        self.fields().same(&other.fields())
    }

    proof fn lemma_unambiguous(a: &BlockResponseEnvelope, b: &BlockResponseEnvelope, a_tail: Seq<u8>, b_tail: Seq<u8>) {
        reveal(<BlockResponseEnvelope as DurableEncode>::wire);
        <(RequestId, BlockResponse)>::lemma_unambiguous(&a.fields(), &b.fields(), a_tail, b_tail);
        assert(a.same(b));
    }

    fn decode(input: &mut DurableDecoder<'_>) -> (result: Result<BlockResponseEnvelope, StorageError>) {
        reveal(<BlockResponseEnvelope as DurableEncode>::wire);
        let ghost whole = input.rest();
        match <(RequestId, BlockResponse)>::decode(input) {
            Ok((request_id, response)) => {
                let value = BlockResponseEnvelope { request_id, response };
                proof {
                    lemma_starts_with_value(value, input.rest());
                }
                Ok(value)
            },
            Err(error) => {
                proof {
                    assert forall|value: BlockResponseEnvelope, tail: Seq<u8>|
                        value.durable() && #[trigger] (value.wire() + tail) == whole implies false by {
                        lemma_starts_with_value(value.fields(), tail);
                    }
                }
                Err(error)
            },
        }
    }
}

} // verus!
