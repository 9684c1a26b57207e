//! The records of the metadata plane.
use vstd::prelude::*;

use crate::codec::{durable_codec_error, lemma_drop_tag, lemma_split_unique, lemma_starts_with_value, pair_same, pair_wire, DurableCodec, DurableDecoder, DurableEncode, DurableEncoder};
use crate::error::StorageError;
use crate::block_api::BlockRange;
use crate::id::{
    AppendRunId, AppendStreamId, AppendTicketId, BlockCount, BlockIndex, CheckpointId,
    CommitGroupId, CommitSeq, DeviceGeneration, DeviceId, FileId, FileVersion,
    KeyspaceCatalogShardId, KeyspaceGeneration, KeyspaceId, KeyspaceRootId, LogicalTime,
    MetadataNodeId, SegmentId, ShardId, StorageNodeId, WriterEpoch,
};

verus! {

/// Whom a metadata tree belongs to.
#[derive(Clone, Copy, Debug, PartialEq, Eq, Structural)]
pub enum MappingOwner {
    BlockDevice(DeviceId),
    NativeKeyspace(KeyspaceId),
}

impl MappingOwner {
    /// The byte that tells the variants apart.
    pub open spec fn tag(&self) -> u8 {
        match self {
            MappingOwner::BlockDevice(_) => 1,
            MappingOwner::NativeKeyspace(_) => 2,
        }
    }

    /// The bytes behind the tag.
    pub open spec fn body(&self) -> Seq<u8> {
        match *self {
            MappingOwner::BlockDevice(device_id) => device_id.wire(),
            MappingOwner::NativeKeyspace(keyspace_id) => keyspace_id.wire(),
        }
    }
}

impl DurableEncode for MappingOwner {
    #[verifier::opaque]
    open spec fn wire(&self) -> Seq<u8> {
        seq![self.tag()] + self.body()
    }

    open spec fn durable(&self) -> bool {
        match *self {
            MappingOwner::BlockDevice(device_id) => device_id.durable(),
            MappingOwner::NativeKeyspace(keyspace_id) => keyspace_id.durable(),
        }
    }

    fn encode(&self, out: &mut DurableEncoder) -> (result: Result<(), StorageError>) {
        reveal(<MappingOwner as DurableEncode>::wire);
        match self {
            MappingOwner::BlockDevice(device_id) => {
                out.put_u8(1);
                device_id.encode(out)?;
            },
            MappingOwner::NativeKeyspace(keyspace_id) => {
                out.put_u8(2);
                keyspace_id.encode(out)?;
            },
        }
        assert(out@ =~= old(out)@ + self.wire());
        Ok(())
    }
}

impl DurableCodec for MappingOwner {
    open spec fn same(&self, other: &MappingOwner) -> bool {
        *self == *other
    }

    proof fn lemma_unambiguous(a: &MappingOwner, b: &MappingOwner, a_tail: Seq<u8>, b_tail: Seq<u8>) {
        reveal(<MappingOwner as DurableEncode>::wire);
        lemma_drop_tag(a.tag(), a.body(), a_tail);
        lemma_drop_tag(b.tag(), b.body(), b_tail);
        match (*a, *b) {
            (MappingOwner::BlockDevice(device_id), MappingOwner::BlockDevice(b_device_id)) => {
                DeviceId::lemma_unambiguous(&device_id, &b_device_id, a_tail, b_tail);
            },
            (MappingOwner::NativeKeyspace(keyspace_id), MappingOwner::NativeKeyspace(b_keyspace_id)) => {
                KeyspaceId::lemma_unambiguous(&keyspace_id, &b_keyspace_id, a_tail, b_tail);
            },
            _ => {},
        }
    }

    fn decode(input: &mut DurableDecoder<'_>) -> (result: Result<MappingOwner, StorageError>) {
        reveal(<MappingOwner as DurableEncode>::wire);
        let ghost whole = input.rest();
        let tag: u8 = match input.u8() {
            Ok(tag) => tag,
            Err(error) => {
                proof {
                    assert forall|value: MappingOwner, tail: Seq<u8>| #[trigger]
                        (value.wire() + tail) == whole implies false by {
                        assert((value.wire() + tail).len() >= 1);
                    }
                }
                return Err(error);
            },
        };
        let ghost rest = input.rest();
        proof {
            assert forall|value: MappingOwner, tail: Seq<u8>| #[trigger]
                (value.wire() + tail) == whole implies value.tag() == tag && rest == value.body()
                + tail by {
                lemma_drop_tag(value.tag(), value.body(), tail);
                assert(whole.skip(1) =~= rest);
            }
        }
        match tag {
            1 => match DeviceId::decode(input) {
                Ok(device_id) => {
                    let value = MappingOwner::BlockDevice(device_id);
                    proof {
                        assert(whole =~= value.wire() + input.rest());
                        lemma_starts_with_value(value, input.rest());
                    }
                    Ok(value)
                },
                Err(error) => {
                    proof {
                        assert forall|value: MappingOwner, tail: Seq<u8>|
                            value.durable() && #[trigger] (value.wire() + tail) == whole implies false by {
                            match value {
                                MappingOwner::BlockDevice(device_id) => {
                                    lemma_starts_with_value(device_id, tail);
                                },
                                _ => {},
                            }
                        }
                    }
                    Err(error)
                },
            },
            2 => match KeyspaceId::decode(input) {
                Ok(keyspace_id) => {
                    let value = MappingOwner::NativeKeyspace(keyspace_id);
                    proof {
                        assert(whole =~= value.wire() + input.rest());
                        lemma_starts_with_value(value, input.rest());
                    }
                    Ok(value)
                },
                Err(error) => {
                    proof {
                        assert forall|value: MappingOwner, tail: Seq<u8>|
                            value.durable() && #[trigger] (value.wire() + tail) == whole implies false by {
                            match value {
                                MappingOwner::NativeKeyspace(keyspace_id) => {
                                    lemma_starts_with_value(keyspace_id, tail);
                                },
                                _ => {},
                            }
                        }
                    }
                    Err(error)
                },
            },
            _ => Err(durable_codec_error("invalid mapping owner tag")),
        }
    }
}

/// The current state of a device.
#[derive(Clone, Debug, PartialEq, Eq)]
pub struct DeviceHead {
    pub device_id: DeviceId,
    pub generation: DeviceGeneration,
    pub shard_roots: Vec<MetadataNodeId>,
    pub latest_commit: CommitSeq,
}

impl DurableEncode for DeviceHead {
    #[verifier::opaque]
    open spec fn wire(&self) -> Seq<u8> {
        self.fields().wire()
    }

    open spec fn durable(&self) -> bool {
        self.fields().durable()
    }

    fn encode(&self, out: &mut DurableEncoder) -> (result: Result<(), StorageError>) {
        reveal(pair_wire);
        reveal(<DeviceHead as DurableEncode>::wire);
        (&self.device_id, (&self.generation, (&self.shard_roots, &self.latest_commit))).encode(out)
    }
}

impl DeviceHead {
    pub open spec fn fields(self) -> (DeviceId, (DeviceGeneration, (Vec<MetadataNodeId>, CommitSeq))) {
        (self.device_id, (self.generation, (self.shard_roots, self.latest_commit)))
    }
}

impl DurableCodec for DeviceHead {
    open spec fn same(&self, other: &DeviceHead) -> bool {
        self.fields().same(&other.fields())
    }

    proof fn lemma_unambiguous(a: &DeviceHead, b: &DeviceHead, a_tail: Seq<u8>, b_tail: Seq<u8>) {
        reveal(<DeviceHead as DurableEncode>::wire);
        <(DeviceId, (DeviceGeneration, (Vec<MetadataNodeId>, CommitSeq)))>::lemma_unambiguous(&a.fields(), &b.fields(), a_tail, b_tail);
        assert(a.same(b));
    }

    fn decode(input: &mut DurableDecoder<'_>) -> (result: Result<DeviceHead, StorageError>) {
        reveal(<DeviceHead as DurableEncode>::wire);
        let ghost whole = input.rest();
        match <(DeviceId, (DeviceGeneration, (Vec<MetadataNodeId>, CommitSeq)))>::decode(input) {
            Ok((device_id, (generation, (shard_roots, latest_commit)))) => {
                let value = DeviceHead { device_id, generation, shard_roots, latest_commit };
                proof {
                    lemma_starts_with_value(value, input.rest());
                }
                Ok(value)
            },
            Err(error) => {
                proof {
                    assert forall|value: DeviceHead, tail: Seq<u8>|
                        value.durable() && #[trigger] (value.wire() + tail) == whole implies false by {
                        lemma_starts_with_value(value.fields(), tail);
                    }
                }
                Err(error)
            },
        }
    }
}

/// The stored part of a device head that all shards share.
#[derive(Clone, Copy, Debug, PartialEq, Eq, Structural)]
pub struct DurableDeviceManifest {
    pub device_id: DeviceId,
    pub shard_count: u64,
}

impl DurableEncode for DurableDeviceManifest {
    #[verifier::opaque]
    open spec fn wire(&self) -> Seq<u8> {
        self.fields().wire()
    }

    open spec fn durable(&self) -> bool {
        self.fields().durable()
    }

    fn encode(&self, out: &mut DurableEncoder) -> (result: Result<(), StorageError>) {
        reveal(pair_wire);
        reveal(<DurableDeviceManifest as DurableEncode>::wire);
        (&self.device_id, &self.shard_count).encode(out)
    }
}

impl DurableDeviceManifest {
    pub open spec fn fields(self) -> (DeviceId, u64) {
        (self.device_id, self.shard_count)
    }
}

impl DurableCodec for DurableDeviceManifest {
    open spec fn same(&self, other: &DurableDeviceManifest) -> bool {
        *self == *other
    }

    proof fn lemma_unambiguous(a: &DurableDeviceManifest, b: &DurableDeviceManifest, a_tail: Seq<u8>, b_tail: Seq<u8>) {
        reveal(<DurableDeviceManifest as DurableEncode>::wire);
        reveal(pair_same);
        <(DeviceId, u64)>::lemma_unambiguous(&a.fields(), &b.fields(), a_tail, b_tail);
        assert(a.same(b));
    }

    fn decode(input: &mut DurableDecoder<'_>) -> (result: Result<DurableDeviceManifest, StorageError>) {
        reveal(<DurableDeviceManifest as DurableEncode>::wire);
        let ghost whole = input.rest();
        match <(DeviceId, u64)>::decode(input) {
            Ok((device_id, shard_count)) => {
                let value = DurableDeviceManifest { device_id, shard_count };
                proof {
                    lemma_starts_with_value(value, input.rest());
                }
                Ok(value)
            },
            Err(error) => {
                proof {
                    assert forall|value: DurableDeviceManifest, tail: Seq<u8>|
                        value.durable() && #[trigger] (value.wire() + tail) == whole implies false by {
                        lemma_starts_with_value(value.fields(), tail);
                    }
                }
                Err(error)
            },
        }
    }
}

/// The stored part of a device head that belongs to one shard.
#[derive(Clone, Copy, Debug, PartialEq, Eq, Structural)]
pub struct DurableDeviceShardHead {
    pub device_id: DeviceId,
    pub shard_id: ShardId,
    pub root: MetadataNodeId,
    pub generation: DeviceGeneration,
    pub latest_commit: CommitSeq,
}

impl DurableEncode for DurableDeviceShardHead {
    #[verifier::opaque]
    open spec fn wire(&self) -> Seq<u8> {
        self.fields().wire()
    }

    open spec fn durable(&self) -> bool {
        self.fields().durable()
    }

    fn encode(&self, out: &mut DurableEncoder) -> (result: Result<(), StorageError>) {
        reveal(pair_wire);
        reveal(<DurableDeviceShardHead as DurableEncode>::wire);
        ((&self.device_id, (&self.shard_id, (&self.root, &self.generation))), &self.latest_commit).encode(out)
    }
}

impl DurableDeviceShardHead {
    pub open spec fn fields(self) -> ((DeviceId, (ShardId, (MetadataNodeId, DeviceGeneration))), CommitSeq) {
        ((self.device_id, (self.shard_id, (self.root, self.generation))), self.latest_commit)
    }
}

impl DurableCodec for DurableDeviceShardHead {
    open spec fn same(&self, other: &DurableDeviceShardHead) -> bool {
        *self == *other
    }

    proof fn lemma_unambiguous(a: &DurableDeviceShardHead, b: &DurableDeviceShardHead, a_tail: Seq<u8>, b_tail: Seq<u8>) {
        reveal(<DurableDeviceShardHead as DurableEncode>::wire);
        reveal(pair_same);
        <((DeviceId, (ShardId, (MetadataNodeId, DeviceGeneration))), CommitSeq)>::lemma_unambiguous(&a.fields(), &b.fields(), a_tail, b_tail);
        assert(a.same(b));
    }

    fn decode(input: &mut DurableDecoder<'_>) -> (result: Result<DurableDeviceShardHead, StorageError>) {
        reveal(<DurableDeviceShardHead as DurableEncode>::wire);
        let ghost whole = input.rest();
        match <((DeviceId, (ShardId, (MetadataNodeId, DeviceGeneration))), CommitSeq)>::decode(input) {
            Ok(((device_id, (shard_id, (root, generation))), latest_commit)) => {
                let value = DurableDeviceShardHead { device_id, shard_id, root, generation, latest_commit };
                proof {
                    lemma_starts_with_value(value, input.rest());
                }
                Ok(value)
            },
            Err(error) => {
                proof {
                    assert forall|value: DurableDeviceShardHead, tail: Seq<u8>|
                        value.durable() && #[trigger] (value.wire() + tail) == whole implies false by {
                        lemma_starts_with_value(value.fields(), tail);
                    }
                }
                Err(error)
            },
        }
    }
}

/// The stored part of a keyspace head that all shards share.
#[derive(Clone, Copy, Debug, PartialEq, Eq, Structural)]
pub struct DurableKeyspaceManifest {
    pub keyspace_id: KeyspaceId,
    pub shard_count: u64,
    pub file_count: u64,
}

impl DurableEncode for DurableKeyspaceManifest {
    #[verifier::opaque]
    open spec fn wire(&self) -> Seq<u8> {
        self.fields().wire()
    }

    open spec fn durable(&self) -> bool {
        self.fields().durable()
    }

    fn encode(&self, out: &mut DurableEncoder) -> (result: Result<(), StorageError>) {
        reveal(pair_wire);
        reveal(<DurableKeyspaceManifest as DurableEncode>::wire);
        (&self.keyspace_id, (&self.shard_count, &self.file_count)).encode(out)
    }
}

impl DurableKeyspaceManifest {
    pub open spec fn fields(self) -> (KeyspaceId, (u64, u64)) {
        (self.keyspace_id, (self.shard_count, self.file_count))
    }
}

impl DurableCodec for DurableKeyspaceManifest {
    open spec fn same(&self, other: &DurableKeyspaceManifest) -> bool {
        *self == *other
    }

    proof fn lemma_unambiguous(a: &DurableKeyspaceManifest, b: &DurableKeyspaceManifest, a_tail: Seq<u8>, b_tail: Seq<u8>) {
        reveal(<DurableKeyspaceManifest as DurableEncode>::wire);
        reveal(pair_same);
        <(KeyspaceId, (u64, u64))>::lemma_unambiguous(&a.fields(), &b.fields(), a_tail, b_tail);
        assert(a.same(b));
    }

    fn decode(input: &mut DurableDecoder<'_>) -> (result: Result<DurableKeyspaceManifest, StorageError>) {
        reveal(<DurableKeyspaceManifest as DurableEncode>::wire);
        let ghost whole = input.rest();
        match <(KeyspaceId, (u64, u64))>::decode(input) {
            Ok((keyspace_id, (shard_count, file_count))) => {
                let value = DurableKeyspaceManifest { keyspace_id, shard_count, file_count };
                proof {
                    lemma_starts_with_value(value, input.rest());
                }
                Ok(value)
            },
            Err(error) => {
                proof {
                    assert forall|value: DurableKeyspaceManifest, tail: Seq<u8>|
                        value.durable() && #[trigger] (value.wire() + tail) == whole implies false by {
                        lemma_starts_with_value(value.fields(), tail);
                    }
                }
                Err(error)
            },
        }
    }
}

/// The stored part of a keyspace head that belongs to one shard.
#[derive(Clone, Copy, Debug, PartialEq, Eq, Structural)]
pub struct DurableKeyspaceShardHead {
    pub keyspace_id: KeyspaceId,
    pub shard_index: u32,
    pub root: KeyspaceCatalogShardId,
    pub generation: KeyspaceGeneration,
    pub latest_commit: CommitSeq,
}

impl DurableEncode for DurableKeyspaceShardHead {
    #[verifier::opaque]
    open spec fn wire(&self) -> Seq<u8> {
        self.fields().wire()
    }

    open spec fn durable(&self) -> bool {
        self.fields().durable()
    }

    fn encode(&self, out: &mut DurableEncoder) -> (result: Result<(), StorageError>) {
        reveal(pair_wire);
        reveal(<DurableKeyspaceShardHead as DurableEncode>::wire);
        ((&self.keyspace_id, (&self.shard_index, (&self.root, &self.generation))), &self.latest_commit).encode(out)
    }
}

impl DurableKeyspaceShardHead {
    pub open spec fn fields(self) -> ((KeyspaceId, (u32, (KeyspaceCatalogShardId, KeyspaceGeneration))), CommitSeq) {
        ((self.keyspace_id, (self.shard_index, (self.root, self.generation))), self.latest_commit)
    }
}

impl DurableCodec for DurableKeyspaceShardHead {
    open spec fn same(&self, other: &DurableKeyspaceShardHead) -> bool {
        *self == *other
    }

    proof fn lemma_unambiguous(a: &DurableKeyspaceShardHead, b: &DurableKeyspaceShardHead, a_tail: Seq<u8>, b_tail: Seq<u8>) {
        reveal(<DurableKeyspaceShardHead as DurableEncode>::wire);
        reveal(pair_same);
        <((KeyspaceId, (u32, (KeyspaceCatalogShardId, KeyspaceGeneration))), CommitSeq)>::lemma_unambiguous(&a.fields(), &b.fields(), a_tail, b_tail);
        assert(a.same(b));
    }

    fn decode(input: &mut DurableDecoder<'_>) -> (result: Result<DurableKeyspaceShardHead, StorageError>) {
        reveal(<DurableKeyspaceShardHead as DurableEncode>::wire);
        let ghost whole = input.rest();
        match <((KeyspaceId, (u32, (KeyspaceCatalogShardId, KeyspaceGeneration))), CommitSeq)>::decode(input) {
            Ok(((keyspace_id, (shard_index, (root, generation))), latest_commit)) => {
                let value = DurableKeyspaceShardHead { keyspace_id, shard_index, root, generation, latest_commit };
                proof {
                    lemma_starts_with_value(value, input.rest());
                }
                Ok(value)
            },
            Err(error) => {
                proof {
                    assert forall|value: DurableKeyspaceShardHead, tail: Seq<u8>|
                        value.durable() && #[trigger] (value.wire() + tail) == whole implies false by {
                        lemma_starts_with_value(value.fields(), tail);
                    }
                }
                Err(error)
            },
        }
    }
}

/// The current state of a keyspace.
#[derive(Clone, Debug, PartialEq, Eq)]
pub struct KeyspaceHead {
    pub keyspace_id: KeyspaceId,
    pub generation: KeyspaceGeneration,
    pub shard_roots: Vec<KeyspaceCatalogShardId>,
    pub file_count: usize,
    pub latest_commit: CommitSeq,
}

impl DurableEncode for KeyspaceHead {
    #[verifier::opaque]
    open spec fn wire(&self) -> Seq<u8> {
        self.fields().wire()
    }

    open spec fn durable(&self) -> bool {
        self.fields().durable()
    }

    fn encode(&self, out: &mut DurableEncoder) -> (result: Result<(), StorageError>) {
        reveal(pair_wire);
        reveal(<KeyspaceHead as DurableEncode>::wire);
        ((&self.keyspace_id, (&self.generation, (&self.shard_roots, &self.file_count))), &self.latest_commit).encode(out)
    }
}

impl KeyspaceHead {
    pub open spec fn fields(self) -> ((KeyspaceId, (KeyspaceGeneration, (Vec<KeyspaceCatalogShardId>, usize))), CommitSeq) {
        ((self.keyspace_id, (self.generation, (self.shard_roots, self.file_count))), self.latest_commit)
    }
}

impl DurableCodec for KeyspaceHead {
    open spec fn same(&self, other: &KeyspaceHead) -> bool {
        self.fields().same(&other.fields())
    }

    proof fn lemma_unambiguous(a: &KeyspaceHead, b: &KeyspaceHead, a_tail: Seq<u8>, b_tail: Seq<u8>) {
        reveal(<KeyspaceHead as DurableEncode>::wire);
        <((KeyspaceId, (KeyspaceGeneration, (Vec<KeyspaceCatalogShardId>, usize))), CommitSeq)>::lemma_unambiguous(&a.fields(), &b.fields(), a_tail, b_tail);
        assert(a.same(b));
    }

    fn decode(input: &mut DurableDecoder<'_>) -> (result: Result<KeyspaceHead, StorageError>) {
        reveal(<KeyspaceHead as DurableEncode>::wire);
        let ghost whole = input.rest();
        match <((KeyspaceId, (KeyspaceGeneration, (Vec<KeyspaceCatalogShardId>, usize))), CommitSeq)>::decode(input) {
            Ok(((keyspace_id, (generation, (shard_roots, file_count))), latest_commit)) => {
                let value = KeyspaceHead { keyspace_id, generation, shard_roots, file_count, latest_commit };
                proof {
                    lemma_starts_with_value(value, input.rest());
                }
                Ok(value)
            },
            Err(error) => {
                proof {
                    assert forall|value: KeyspaceHead, tail: Seq<u8>|
                        value.durable() && #[trigger] (value.wire() + tail) == whole implies false by {
                        lemma_starts_with_value(value.fields(), tail);
                    }
                }
                Err(error)
            },
        }
    }
}

/// The current state of a file.
#[derive(Clone, Copy, Debug, PartialEq, Eq, Structural)]
pub struct FileHead {
    pub file_id: FileId,
    pub version: FileVersion,
    pub root: MetadataNodeId,
    pub size: u64,
    pub latest_commit: CommitSeq,
}

impl DurableEncode for FileHead {
    #[verifier::opaque]
    open spec fn wire(&self) -> Seq<u8> {
        self.fields().wire()
    }

    open spec fn durable(&self) -> bool {
        self.fields().durable()
    }

    fn encode(&self, out: &mut DurableEncoder) -> (result: Result<(), StorageError>) {
        reveal(pair_wire);
        reveal(<FileHead as DurableEncode>::wire);
        ((&self.file_id, (&self.version, (&self.root, &self.size))), &self.latest_commit).encode(out)
    }
}

impl FileHead {
    pub open spec fn fields(self) -> ((FileId, (FileVersion, (MetadataNodeId, u64))), CommitSeq) {
        ((self.file_id, (self.version, (self.root, self.size))), self.latest_commit)
    }
}

impl DurableCodec for FileHead {
    open spec fn same(&self, other: &FileHead) -> bool {
        *self == *other
    }

    proof fn lemma_unambiguous(a: &FileHead, b: &FileHead, a_tail: Seq<u8>, b_tail: Seq<u8>) {
        reveal(<FileHead as DurableEncode>::wire);
        reveal(pair_same);
        <((FileId, (FileVersion, (MetadataNodeId, u64))), CommitSeq)>::lemma_unambiguous(&a.fields(), &b.fields(), a_tail, b_tail);
        assert(a.same(b));
    }

    fn decode(input: &mut DurableDecoder<'_>) -> (result: Result<FileHead, StorageError>) {
        reveal(<FileHead as DurableEncode>::wire);
        let ghost whole = input.rest();
        match <((FileId, (FileVersion, (MetadataNodeId, u64))), CommitSeq)>::decode(input) {
            Ok(((file_id, (version, (root, size))), latest_commit)) => {
                let value = FileHead { file_id, version, root, size, latest_commit };
                proof {
                    lemma_starts_with_value(value, input.rest());
                }
                Ok(value)
            },
            Err(error) => {
                proof {
                    assert forall|value: FileHead, tail: Seq<u8>|
                        value.durable() && #[trigger] (value.wire() + tail) == whole implies false by {
                        lemma_starts_with_value(value.fields(), tail);
                    }
                }
                Err(error)
            },
        }
    }
}

/// A file in a catalog shard.
#[derive(Clone, Debug, PartialEq, Eq)]
pub struct KeyspaceFile {
    pub name: Option<String>,
    pub head: FileHead,
}

impl DurableEncode for KeyspaceFile {
    #[verifier::opaque]
    open spec fn wire(&self) -> Seq<u8> {
        self.fields().wire()
    }

    open spec fn durable(&self) -> bool {
        self.fields().durable()
    }

    fn encode(&self, out: &mut DurableEncoder) -> (result: Result<(), StorageError>) {
        reveal(pair_wire);
        reveal(<KeyspaceFile as DurableEncode>::wire);
        (&self.name, &self.head).encode(out)
    }
}

impl KeyspaceFile {
    pub open spec fn fields(self) -> (Option<String>, FileHead) {
        (self.name, self.head)
    }
}

impl DurableCodec for KeyspaceFile {
    open spec fn same(&self, other: &KeyspaceFile) -> bool {
        self.fields().same(&other.fields())
    }

    proof fn lemma_unambiguous(a: &KeyspaceFile, b: &KeyspaceFile, a_tail: Seq<u8>, b_tail: Seq<u8>) {
        reveal(<KeyspaceFile as DurableEncode>::wire);
        <(Option<String>, FileHead)>::lemma_unambiguous(&a.fields(), &b.fields(), a_tail, b_tail);
        assert(a.same(b));
    }

    fn decode(input: &mut DurableDecoder<'_>) -> (result: Result<KeyspaceFile, StorageError>) {
        reveal(<KeyspaceFile as DurableEncode>::wire);
        let ghost whole = input.rest();
        match <(Option<String>, FileHead)>::decode(input) {
            Ok((name, head)) => {
                let value = KeyspaceFile { name, head };
                proof {
                    lemma_starts_with_value(value, input.rest());
                }
                Ok(value)
            },
            Err(error) => {
                proof {
                    assert forall|value: KeyspaceFile, tail: Seq<u8>|
                        value.durable() && #[trigger] (value.wire() + tail) == whole implies false by {
                        lemma_starts_with_value(value.fields(), tail);
                    }
                }
                Err(error)
            },
        }
    }
}

/// One immutable version of a whole keyspace.
#[derive(Clone, Debug, PartialEq, Eq)]
pub struct KeyspaceRoot {
    pub root_id: KeyspaceRootId,
    pub shard_roots: Vec<KeyspaceCatalogShardId>,
    pub file_count: usize,
}

impl DurableEncode for KeyspaceRoot {
    #[verifier::opaque]
    open spec fn wire(&self) -> Seq<u8> {
        self.fields().wire()
    }

    open spec fn durable(&self) -> bool {
        self.fields().durable()
    }

    fn encode(&self, out: &mut DurableEncoder) -> (result: Result<(), StorageError>) {
        reveal(pair_wire);
        reveal(<KeyspaceRoot as DurableEncode>::wire);
        (&self.root_id, (&self.shard_roots, &self.file_count)).encode(out)
    }
}

impl KeyspaceRoot {
    pub open spec fn fields(self) -> (KeyspaceRootId, (Vec<KeyspaceCatalogShardId>, usize)) {
        (self.root_id, (self.shard_roots, self.file_count))
    }
}

impl DurableCodec for KeyspaceRoot {
    open spec fn same(&self, other: &KeyspaceRoot) -> bool {
        self.fields().same(&other.fields())
    }

    proof fn lemma_unambiguous(a: &KeyspaceRoot, b: &KeyspaceRoot, a_tail: Seq<u8>, b_tail: Seq<u8>) {
        reveal(<KeyspaceRoot as DurableEncode>::wire);
        <(KeyspaceRootId, (Vec<KeyspaceCatalogShardId>, usize))>::lemma_unambiguous(&a.fields(), &b.fields(), a_tail, b_tail);
        assert(a.same(b));
    }

    fn decode(input: &mut DurableDecoder<'_>) -> (result: Result<KeyspaceRoot, StorageError>) {
        reveal(<KeyspaceRoot as DurableEncode>::wire);
        let ghost whole = input.rest();
        match <(KeyspaceRootId, (Vec<KeyspaceCatalogShardId>, usize))>::decode(input) {
            Ok((root_id, (shard_roots, file_count))) => {
                let value = KeyspaceRoot { root_id, shard_roots, file_count };
                proof {
                    lemma_starts_with_value(value, input.rest());
                }
                Ok(value)
            },
            Err(error) => {
                proof {
                    assert forall|value: KeyspaceRoot, tail: Seq<u8>|
                        value.durable() && #[trigger] (value.wire() + tail) == whole implies false by {
                        lemma_starts_with_value(value.fields(), tail);
                    }
                }
                Err(error)
            },
        }
    }
}

/// A child of an internal node.
#[derive(Clone, Copy, Debug, PartialEq, Eq, Structural)]
pub struct MetadataChild {
    pub range: BlockRange,
    pub node_id: MetadataNodeId,
}

impl DurableEncode for MetadataChild {
    #[verifier::opaque]
    open spec fn wire(&self) -> Seq<u8> {
        self.fields().wire()
    }

    open spec fn durable(&self) -> bool {
        self.fields().durable()
    }

    fn encode(&self, out: &mut DurableEncoder) -> (result: Result<(), StorageError>) {
        reveal(pair_wire);
        reveal(<MetadataChild as DurableEncode>::wire);
        (&self.range, &self.node_id).encode(out)
    }
}

impl MetadataChild {
    pub open spec fn fields(self) -> (BlockRange, MetadataNodeId) {
        (self.range, self.node_id)
    }
}

impl DurableCodec for MetadataChild {
    open spec fn same(&self, other: &MetadataChild) -> bool {
        *self == *other
    }

    proof fn lemma_unambiguous(a: &MetadataChild, b: &MetadataChild, a_tail: Seq<u8>, b_tail: Seq<u8>) {
        reveal(<MetadataChild as DurableEncode>::wire);
        reveal(pair_same);
        <(BlockRange, MetadataNodeId)>::lemma_unambiguous(&a.fields(), &b.fields(), a_tail, b_tail);
        assert(a.same(b));
    }

    fn decode(input: &mut DurableDecoder<'_>) -> (result: Result<MetadataChild, StorageError>) {
        reveal(<MetadataChild as DurableEncode>::wire);
        let ghost whole = input.rest();
        match <(BlockRange, MetadataNodeId)>::decode(input) {
            Ok((range, node_id)) => {
                let value = MetadataChild { range, node_id };
                proof {
                    lemma_starts_with_value(value, input.rest());
                }
                Ok(value)
            },
            Err(error) => {
                proof {
                    assert forall|value: MetadataChild, tail: Seq<u8>|
                        value.durable() && #[trigger] (value.wire() + tail) == whole implies false by {
                        lemma_starts_with_value(value.fields(), tail);
                    }
                }
                Err(error)
            },
        }
    }
}

/// Blocks that a segment holds.
#[derive(Clone, Copy, Debug, PartialEq, Eq, Structural)]
pub struct LeafEntry {
    pub logical_start: BlockIndex,
    pub blocks: BlockCount,
    pub segment_id: SegmentId,
    pub segment_offset: BlockIndex,
}

impl DurableEncode for LeafEntry {
    #[verifier::opaque]
    open spec fn wire(&self) -> Seq<u8> {
        self.fields().wire()
    }

    open spec fn durable(&self) -> bool {
        self.fields().durable()
    }

    fn encode(&self, out: &mut DurableEncoder) -> (result: Result<(), StorageError>) {
        reveal(pair_wire);
        reveal(<LeafEntry as DurableEncode>::wire);
        (&self.logical_start, (&self.blocks, (&self.segment_id, &self.segment_offset))).encode(out)
    }
}

impl LeafEntry {
    pub open spec fn fields(self) -> (BlockIndex, (BlockCount, (SegmentId, BlockIndex))) {
        (self.logical_start, (self.blocks, (self.segment_id, self.segment_offset)))
    }
}

impl DurableCodec for LeafEntry {
    open spec fn same(&self, other: &LeafEntry) -> bool {
        *self == *other
    }

    proof fn lemma_unambiguous(a: &LeafEntry, b: &LeafEntry, a_tail: Seq<u8>, b_tail: Seq<u8>) {
        reveal(<LeafEntry as DurableEncode>::wire);
        reveal(pair_same);
        <(BlockIndex, (BlockCount, (SegmentId, BlockIndex)))>::lemma_unambiguous(&a.fields(), &b.fields(), a_tail, b_tail);
        assert(a.same(b));
    }

    fn decode(input: &mut DurableDecoder<'_>) -> (result: Result<LeafEntry, StorageError>) {
        reveal(<LeafEntry as DurableEncode>::wire);
        let ghost whole = input.rest();
        match <(BlockIndex, (BlockCount, (SegmentId, BlockIndex)))>::decode(input) {
            Ok((logical_start, (blocks, (segment_id, segment_offset)))) => {
                let value = LeafEntry { logical_start, blocks, segment_id, segment_offset };
                proof {
                    lemma_starts_with_value(value, input.rest());
                }
                Ok(value)
            },
            Err(error) => {
                proof {
                    assert forall|value: LeafEntry, tail: Seq<u8>|
                        value.durable() && #[trigger] (value.wire() + tail) == whole implies false by {
                        lemma_starts_with_value(value.fields(), tail);
                    }
                }
                Err(error)
            },
        }
    }
}

/// The checksum of a segment's bytes.
#[derive(Clone, Copy, Debug, PartialEq, Eq, Structural)]
pub enum SegmentPayloadIntegrity {
    Crc32c(u64),
    Unchecked,
}

impl SegmentPayloadIntegrity {
    /// The byte that tells the variants apart.
    pub open spec fn tag(&self) -> u8 {
        match self {
            SegmentPayloadIntegrity::Crc32c(_) => 1,
            SegmentPayloadIntegrity::Unchecked => 2,
        }
    }

    /// The bytes behind the tag.
    pub open spec fn body(&self) -> Seq<u8> {
        match *self {
            SegmentPayloadIntegrity::Crc32c(checksum) => checksum.wire(),
            SegmentPayloadIntegrity::Unchecked => seq![],
        }
    }
}

impl DurableEncode for SegmentPayloadIntegrity {
    #[verifier::opaque]
    open spec fn wire(&self) -> Seq<u8> {
        seq![self.tag()] + self.body()
    }

    open spec fn durable(&self) -> bool {
        match *self {
            SegmentPayloadIntegrity::Crc32c(checksum) => checksum.durable(),
            SegmentPayloadIntegrity::Unchecked => true,
        }
    }

    fn encode(&self, out: &mut DurableEncoder) -> (result: Result<(), StorageError>) {
        reveal(<SegmentPayloadIntegrity as DurableEncode>::wire);
        match self {
            SegmentPayloadIntegrity::Crc32c(checksum) => {
                out.put_u8(1);
                checksum.encode(out)?;
            },
            SegmentPayloadIntegrity::Unchecked => {
                out.put_u8(2);
            },
        }
        assert(out@ =~= old(out)@ + self.wire());
        Ok(())
    }
}

impl DurableCodec for SegmentPayloadIntegrity {
    open spec fn same(&self, other: &SegmentPayloadIntegrity) -> bool {
        *self == *other
    }

    proof fn lemma_unambiguous(a: &SegmentPayloadIntegrity, b: &SegmentPayloadIntegrity, a_tail: Seq<u8>, b_tail: Seq<u8>) {
        reveal(<SegmentPayloadIntegrity as DurableEncode>::wire);
        lemma_drop_tag(a.tag(), a.body(), a_tail);
        lemma_drop_tag(b.tag(), b.body(), b_tail);
        match (*a, *b) {
            (SegmentPayloadIntegrity::Crc32c(checksum), SegmentPayloadIntegrity::Crc32c(b_checksum)) => {
                u64::lemma_unambiguous(&checksum, &b_checksum, a_tail, b_tail);
            },
            (SegmentPayloadIntegrity::Unchecked, SegmentPayloadIntegrity::Unchecked) => {
                assert(a.body() + a_tail =~= a_tail);
                assert(b.body() + b_tail =~= b_tail);
            },
            _ => {},
        }
    }

    fn decode(input: &mut DurableDecoder<'_>) -> (result: Result<SegmentPayloadIntegrity, StorageError>) {
        reveal(<SegmentPayloadIntegrity as DurableEncode>::wire);
        let ghost whole = input.rest();
        let tag: u8 = match input.u8() {
            Ok(tag) => tag,
            Err(error) => {
                proof {
                    assert forall|value: SegmentPayloadIntegrity, tail: Seq<u8>| #[trigger]
                        (value.wire() + tail) == whole implies false by {
                        assert((value.wire() + tail).len() >= 1);
                    }
                }
                return Err(error);
            },
        };
        let ghost rest = input.rest();
        proof {
            assert forall|value: SegmentPayloadIntegrity, tail: Seq<u8>| #[trigger]
                (value.wire() + tail) == whole implies value.tag() == tag && rest == value.body()
                + tail by {
                lemma_drop_tag(value.tag(), value.body(), tail);
                assert(whole.skip(1) =~= rest);
            }
        }
        match tag {
            1 => match u64::decode(input) {
                Ok(checksum) => {
                    let value = SegmentPayloadIntegrity::Crc32c(checksum);
                    proof {
                        assert(whole =~= value.wire() + input.rest());
                        lemma_starts_with_value(value, input.rest());
                    }
                    Ok(value)
                },
                Err(error) => {
                    proof {
                        assert forall|value: SegmentPayloadIntegrity, tail: Seq<u8>|
                            value.durable() && #[trigger] (value.wire() + tail) == whole implies false by {
                            match value {
                                SegmentPayloadIntegrity::Crc32c(checksum) => {
                                    lemma_starts_with_value(checksum, tail);
                                },
                                _ => {},
                            }
                        }
                    }
                    Err(error)
                },
            },
            2 => {
                let value = SegmentPayloadIntegrity::Unchecked;
                proof {
                    assert(whole =~= value.wire() + input.rest());
                    lemma_starts_with_value(value, input.rest());
                }
                Ok(value)
            },
            _ => Err(durable_codec_error("invalid segment payload integrity tag")),
        }
    }
}

/// One run of appended bytes in a stream log.
#[derive(Clone, Copy, Debug, PartialEq, Eq, Structural)]
pub struct AppendLogRun {
    pub run_id: AppendRunId,
    pub storage_node: StorageNodeId,
    pub stream_id: AppendStreamId,
    pub writer_epoch: WriterEpoch,
    pub keyspace_id: KeyspaceId,
    pub file_id: FileId,
    pub file_offset_start: u64,
    pub payload_len: u64,
    pub log_id: u64,
    pub log_payload_offset: u64,
    pub log_record_bytes: u64,
    pub integrity: SegmentPayloadIntegrity,
}

impl DurableEncode for AppendLogRun {
    #[verifier::opaque]
    open spec fn wire(&self) -> Seq<u8> {
        self.fields().wire()
    }

    open spec fn durable(&self) -> bool {
        self.fields().durable()
    }

    fn encode(&self, out: &mut DurableEncoder) -> (result: Result<(), StorageError>) {
        reveal(pair_wire);
        reveal(<AppendLogRun as DurableEncode>::wire);
        (((&self.run_id, (&self.storage_node, (&self.stream_id, &self.writer_epoch))), (&self.keyspace_id, (&self.file_id, (&self.file_offset_start, &self.payload_len)))), (&self.log_id, (&self.log_payload_offset, (&self.log_record_bytes, &self.integrity)))).encode(out)
    }
}

impl AppendLogRun {
    pub open spec fn fields(self) -> (((AppendRunId, (StorageNodeId, (AppendStreamId, WriterEpoch))), (KeyspaceId, (FileId, (u64, u64)))), (u64, (u64, (u64, SegmentPayloadIntegrity)))) {
        (((self.run_id, (self.storage_node, (self.stream_id, self.writer_epoch))), (self.keyspace_id, (self.file_id, (self.file_offset_start, self.payload_len)))), (self.log_id, (self.log_payload_offset, (self.log_record_bytes, self.integrity))))
    }
}

impl DurableCodec for AppendLogRun {
    open spec fn same(&self, other: &AppendLogRun) -> bool {
        *self == *other
    }

    proof fn lemma_unambiguous(a: &AppendLogRun, b: &AppendLogRun, a_tail: Seq<u8>, b_tail: Seq<u8>) {
        reveal(<AppendLogRun as DurableEncode>::wire);
        reveal(pair_same);
        <(((AppendRunId, (StorageNodeId, (AppendStreamId, WriterEpoch))), (KeyspaceId, (FileId, (u64, u64)))), (u64, (u64, (u64, SegmentPayloadIntegrity))))>::lemma_unambiguous(&a.fields(), &b.fields(), a_tail, b_tail);
        assert(a.same(b));
    }

    fn decode(input: &mut DurableDecoder<'_>) -> (result: Result<AppendLogRun, StorageError>) {
        reveal(<AppendLogRun as DurableEncode>::wire);
        let ghost whole = input.rest();
        match <(((AppendRunId, (StorageNodeId, (AppendStreamId, WriterEpoch))), (KeyspaceId, (FileId, (u64, u64)))), (u64, (u64, (u64, SegmentPayloadIntegrity))))>::decode(input) {
            Ok((((run_id, (storage_node, (stream_id, writer_epoch))), (keyspace_id, (file_id, (file_offset_start, payload_len)))), (log_id, (log_payload_offset, (log_record_bytes, integrity))))) => {
                let value = AppendLogRun { run_id, storage_node, stream_id, writer_epoch, keyspace_id, file_id, file_offset_start, payload_len, log_id, log_payload_offset, log_record_bytes, integrity };
                proof {
                    lemma_starts_with_value(value, input.rest());
                }
                Ok(value)
            },
            Err(error) => {
                proof {
                    assert forall|value: AppendLogRun, tail: Seq<u8>|
                        value.durable() && #[trigger] (value.wire() + tail) == whole implies false by {
                        lemma_starts_with_value(value.fields(), tail);
                    }
                }
                Err(error)
            },
        }
    }
}

/// A part of a run.
#[derive(Clone, Copy, Debug, PartialEq, Eq, Structural)]
pub struct AppendLogRunRange {
    pub run_id: AppendRunId,
    pub storage_node: StorageNodeId,
    pub stream_id: AppendStreamId,
    pub writer_epoch: WriterEpoch,
    pub keyspace_id: KeyspaceId,
    pub file_id: FileId,
    pub file_offset_start: u64,
    pub payload_len: u64,
    pub log_id: u64,
    pub log_payload_offset: u64,
    pub integrity: SegmentPayloadIntegrity,
}

impl DurableEncode for AppendLogRunRange {
    #[verifier::opaque]
    open spec fn wire(&self) -> Seq<u8> {
        self.fields().wire()
    }

    open spec fn durable(&self) -> bool {
        self.fields().durable()
    }

    fn encode(&self, out: &mut DurableEncoder) -> (result: Result<(), StorageError>) {
        reveal(pair_wire);
        reveal(<AppendLogRunRange as DurableEncode>::wire);
        (((&self.run_id, (&self.storage_node, (&self.stream_id, &self.writer_epoch))), (&self.keyspace_id, (&self.file_id, (&self.file_offset_start, &self.payload_len)))), (&self.log_id, (&self.log_payload_offset, &self.integrity))).encode(out)
    }
}

impl AppendLogRunRange {
    pub open spec fn fields(self) -> (((AppendRunId, (StorageNodeId, (AppendStreamId, WriterEpoch))), (KeyspaceId, (FileId, (u64, u64)))), (u64, (u64, SegmentPayloadIntegrity))) {
        (((self.run_id, (self.storage_node, (self.stream_id, self.writer_epoch))), (self.keyspace_id, (self.file_id, (self.file_offset_start, self.payload_len)))), (self.log_id, (self.log_payload_offset, self.integrity)))
    }
}

impl DurableCodec for AppendLogRunRange {
    open spec fn same(&self, other: &AppendLogRunRange) -> bool {
        *self == *other
    }

    proof fn lemma_unambiguous(a: &AppendLogRunRange, b: &AppendLogRunRange, a_tail: Seq<u8>, b_tail: Seq<u8>) {
        reveal(<AppendLogRunRange as DurableEncode>::wire);
        reveal(pair_same);
        <(((AppendRunId, (StorageNodeId, (AppendStreamId, WriterEpoch))), (KeyspaceId, (FileId, (u64, u64)))), (u64, (u64, SegmentPayloadIntegrity)))>::lemma_unambiguous(&a.fields(), &b.fields(), a_tail, b_tail);
        assert(a.same(b));
    }

    fn decode(input: &mut DurableDecoder<'_>) -> (result: Result<AppendLogRunRange, StorageError>) {
        reveal(<AppendLogRunRange as DurableEncode>::wire);
        let ghost whole = input.rest();
        match <(((AppendRunId, (StorageNodeId, (AppendStreamId, WriterEpoch))), (KeyspaceId, (FileId, (u64, u64)))), (u64, (u64, SegmentPayloadIntegrity)))>::decode(input) {
            Ok((((run_id, (storage_node, (stream_id, writer_epoch))), (keyspace_id, (file_id, (file_offset_start, payload_len)))), (log_id, (log_payload_offset, integrity)))) => {
                let value = AppendLogRunRange { run_id, storage_node, stream_id, writer_epoch, keyspace_id, file_id, file_offset_start, payload_len, log_id, log_payload_offset, integrity };
                proof {
                    lemma_starts_with_value(value, input.rest());
                }
                Ok(value)
            },
            Err(error) => {
                proof {
                    assert forall|value: AppendLogRunRange, tail: Seq<u8>|
                        value.durable() && #[trigger] (value.wire() + tail) == whole implies false by {
                        lemma_starts_with_value(value.fields(), tail);
                    }
                }
                Err(error)
            },
        }
    }
}

/// Bytes of a file that a run holds.
#[derive(Clone, Copy, Debug, PartialEq, Eq, Structural)]
pub struct RunBackedFileExtent {
    pub file_offset_start: u64,
    pub payload_len: u64,
    pub run: AppendLogRunRange,
}

impl DurableEncode for RunBackedFileExtent {
    #[verifier::opaque]
    open spec fn wire(&self) -> Seq<u8> {
        self.fields().wire()
    }

    open spec fn durable(&self) -> bool {
        self.fields().durable()
    }

    fn encode(&self, out: &mut DurableEncoder) -> (result: Result<(), StorageError>) {
        reveal(pair_wire);
        reveal(<RunBackedFileExtent as DurableEncode>::wire);
        (&self.file_offset_start, (&self.payload_len, &self.run)).encode(out)
    }
}

impl RunBackedFileExtent {
    pub open spec fn fields(self) -> (u64, (u64, AppendLogRunRange)) {
        (self.file_offset_start, (self.payload_len, self.run))
    }
}

impl DurableCodec for RunBackedFileExtent {
    open spec fn same(&self, other: &RunBackedFileExtent) -> bool {
        *self == *other
    }

    proof fn lemma_unambiguous(a: &RunBackedFileExtent, b: &RunBackedFileExtent, a_tail: Seq<u8>, b_tail: Seq<u8>) {
        reveal(<RunBackedFileExtent as DurableEncode>::wire);
        reveal(pair_same);
        <(u64, (u64, AppendLogRunRange))>::lemma_unambiguous(&a.fields(), &b.fields(), a_tail, b_tail);
        assert(a.same(b));
    }

    fn decode(input: &mut DurableDecoder<'_>) -> (result: Result<RunBackedFileExtent, StorageError>) {
        reveal(<RunBackedFileExtent as DurableEncode>::wire);
        let ghost whole = input.rest();
        match <(u64, (u64, AppendLogRunRange))>::decode(input) {
            Ok((file_offset_start, (payload_len, run))) => {
                let value = RunBackedFileExtent { file_offset_start, payload_len, run };
                proof {
                    lemma_starts_with_value(value, input.rest());
                }
                Ok(value)
            },
            Err(error) => {
                proof {
                    assert forall|value: RunBackedFileExtent, tail: Seq<u8>|
                        value.durable() && #[trigger] (value.wire() + tail) == whole implies false by {
                        lemma_starts_with_value(value.fields(), tail);
                    }
                }
                Err(error)
            },
        }
    }
}

/// What a metadata node holds.
#[derive(Clone, Debug, PartialEq, Eq)]
pub enum MetadataNodeKind {
    Internal { children: Vec<MetadataChild> },
    Leaf { entries: Vec<LeafEntry>, run_extents: Vec<RunBackedFileExtent> },
}

impl MetadataNodeKind {
    /// The byte that tells the variants apart.
    pub open spec fn tag(&self) -> u8 {
        match self {
            MetadataNodeKind::Internal { .. } => 1,
            MetadataNodeKind::Leaf { .. } => 2,
        }
    }

    /// The bytes behind the tag.
    pub open spec fn body(&self) -> Seq<u8> {
        match *self {
            MetadataNodeKind::Internal { children } => children.wire(),
            MetadataNodeKind::Leaf { entries, run_extents } => (entries, run_extents).wire(),
        }
    }
}

impl DurableEncode for MetadataNodeKind {
    #[verifier::opaque]
    open spec fn wire(&self) -> Seq<u8> {
        seq![self.tag()] + self.body()
    }

    open spec fn durable(&self) -> bool {
        match *self {
            MetadataNodeKind::Internal { children } => children.durable(),
            MetadataNodeKind::Leaf { entries, run_extents } => (entries, run_extents).durable(),
        }
    }

    fn encode(&self, out: &mut DurableEncoder) -> (result: Result<(), StorageError>) {
        reveal(pair_wire);
        reveal(<MetadataNodeKind as DurableEncode>::wire);
        match self {
            MetadataNodeKind::Internal { children } => {
                out.put_u8(1);
                children.encode(out)?;
            },
            MetadataNodeKind::Leaf { entries, run_extents } => {
                out.put_u8(2);
                (entries, run_extents).encode(out)?;
            },
        }
        assert(out@ =~= old(out)@ + self.wire());
        Ok(())
    }
}

impl DurableCodec for MetadataNodeKind {
    open spec fn same(&self, other: &MetadataNodeKind) -> bool {
        match (*self, *other) {
            (MetadataNodeKind::Internal { children }, MetadataNodeKind::Internal { children: other_children }) => {
                children.same(&other_children)
            },
            (MetadataNodeKind::Leaf { entries, run_extents }, MetadataNodeKind::Leaf { entries: other_entries, run_extents: other_run_extents }) => {
                (entries, run_extents).same(&(other_entries, other_run_extents))
            },
            _ => false,
        }
    }

    proof fn lemma_unambiguous(a: &MetadataNodeKind, b: &MetadataNodeKind, a_tail: Seq<u8>, b_tail: Seq<u8>) {
        reveal(<MetadataNodeKind as DurableEncode>::wire);
        lemma_drop_tag(a.tag(), a.body(), a_tail);
        lemma_drop_tag(b.tag(), b.body(), b_tail);
        match (*a, *b) {
            (MetadataNodeKind::Internal { children }, MetadataNodeKind::Internal { children: b_children }) => {
                <Vec<MetadataChild>>::lemma_unambiguous(&children, &b_children, a_tail, b_tail);
            },
            (MetadataNodeKind::Leaf { entries, run_extents }, MetadataNodeKind::Leaf { entries: b_entries, run_extents: b_run_extents }) => {
                <(Vec<LeafEntry>, Vec<RunBackedFileExtent>)>::lemma_unambiguous(&(entries, run_extents), &(b_entries, b_run_extents), a_tail, b_tail);
            },
            _ => {},
        }
    }

    fn decode(input: &mut DurableDecoder<'_>) -> (result: Result<MetadataNodeKind, StorageError>) {
        reveal(<MetadataNodeKind as DurableEncode>::wire);
        let ghost whole = input.rest();
        let tag: u8 = match input.u8() {
            Ok(tag) => tag,
            Err(error) => {
                proof {
                    assert forall|value: MetadataNodeKind, tail: Seq<u8>| #[trigger]
                        (value.wire() + tail) == whole implies false by {
                        assert((value.wire() + tail).len() >= 1);
                    }
                }
                return Err(error);
            },
        };
        let ghost rest = input.rest();
        proof {
            assert forall|value: MetadataNodeKind, tail: Seq<u8>| #[trigger]
                (value.wire() + tail) == whole implies value.tag() == tag && rest == value.body()
                + tail by {
                lemma_drop_tag(value.tag(), value.body(), tail);
                assert(whole.skip(1) =~= rest);
            }
        }
        match tag {
            1 => match <Vec<MetadataChild>>::decode(input) {
                Ok(children) => {
                    let value = MetadataNodeKind::Internal { children };
                    proof {
                        assert(whole =~= value.wire() + input.rest());
                        lemma_starts_with_value(value, input.rest());
                    }
                    Ok(value)
                },
                Err(error) => {
                    proof {
                        assert forall|value: MetadataNodeKind, tail: Seq<u8>|
                            value.durable() && #[trigger] (value.wire() + tail) == whole implies false by {
                            match value {
                                MetadataNodeKind::Internal { children } => {
                                    lemma_starts_with_value(children, tail);
                                },
                                _ => {},
                            }
                        }
                    }
                    Err(error)
                },
            },
            2 => match <(Vec<LeafEntry>, Vec<RunBackedFileExtent>)>::decode(input) {
                Ok((entries, run_extents)) => {
                    let value = MetadataNodeKind::Leaf { entries, run_extents };
                    proof {
                        assert(whole =~= value.wire() + input.rest());
                        lemma_starts_with_value(value, input.rest());
                    }
                    Ok(value)
                },
                Err(error) => {
                    proof {
                        assert forall|value: MetadataNodeKind, tail: Seq<u8>|
                            value.durable() && #[trigger] (value.wire() + tail) == whole implies false by {
                            match value {
                                MetadataNodeKind::Leaf { entries, run_extents } => {
                                    lemma_starts_with_value((entries, run_extents), tail);
                                },
                                _ => {},
                            }
                        }
                    }
                    Err(error)
                },
            },
            _ => Err(durable_codec_error("invalid metadata node kind tag")),
        }
    }
}

/// An immutable node of a metadata tree.
#[derive(Clone, Debug, PartialEq, Eq)]
pub struct MetadataNode {
    pub node_id: MetadataNodeId,
    pub covered_range: BlockRange,
    pub kind: MetadataNodeKind,
}

impl DurableEncode for MetadataNode {
    #[verifier::opaque]
    open spec fn wire(&self) -> Seq<u8> {
        self.fields().wire()
    }

    open spec fn durable(&self) -> bool {
        self.fields().durable()
    }

    fn encode(&self, out: &mut DurableEncoder) -> (result: Result<(), StorageError>) {
        reveal(pair_wire);
        reveal(<MetadataNode as DurableEncode>::wire);
        (&self.node_id, (&self.covered_range, &self.kind)).encode(out)
    }
}

impl MetadataNode {
    pub open spec fn fields(self) -> (MetadataNodeId, (BlockRange, MetadataNodeKind)) {
        (self.node_id, (self.covered_range, self.kind))
    }
}

impl DurableCodec for MetadataNode {
    open spec fn same(&self, other: &MetadataNode) -> bool {
        self.fields().same(&other.fields())
    }

    proof fn lemma_unambiguous(a: &MetadataNode, b: &MetadataNode, a_tail: Seq<u8>, b_tail: Seq<u8>) {
        reveal(<MetadataNode as DurableEncode>::wire);
        <(MetadataNodeId, (BlockRange, MetadataNodeKind))>::lemma_unambiguous(&a.fields(), &b.fields(), a_tail, b_tail);
        assert(a.same(b));
    }

    fn decode(input: &mut DurableDecoder<'_>) -> (result: Result<MetadataNode, StorageError>) {
        reveal(<MetadataNode as DurableEncode>::wire);
        let ghost whole = input.rest();
        match <(MetadataNodeId, (BlockRange, MetadataNodeKind))>::decode(input) {
            Ok((node_id, (covered_range, kind))) => {
                let value = MetadataNode { node_id, covered_range, kind };
                proof {
                    lemma_starts_with_value(value, input.rest());
                }
                Ok(value)
            },
            Err(error) => {
                proof {
                    assert forall|value: MetadataNode, tail: Seq<u8>|
                        value.durable() && #[trigger] (value.wire() + tail) == whole implies false by {
                        lemma_starts_with_value(value.fields(), tail);
                    }
                }
                Err(error)
            },
        }
    }
}

/// The size and checksum of a segment.
#[derive(Clone, Copy, Debug, PartialEq, Eq, Structural)]
pub struct SegmentDescriptor {
    pub segment_id: SegmentId,
    pub blocks: BlockCount,
    pub bytes: u64,
    pub integrity: SegmentPayloadIntegrity,
}

impl DurableEncode for SegmentDescriptor {
    #[verifier::opaque]
    open spec fn wire(&self) -> Seq<u8> {
        self.fields().wire()
    }

    open spec fn durable(&self) -> bool {
        self.fields().durable()
    }

    fn encode(&self, out: &mut DurableEncoder) -> (result: Result<(), StorageError>) {
        reveal(pair_wire);
        reveal(<SegmentDescriptor as DurableEncode>::wire);
        (&self.segment_id, (&self.blocks, (&self.bytes, &self.integrity))).encode(out)
    }
}

impl SegmentDescriptor {
    pub open spec fn fields(self) -> (SegmentId, (BlockCount, (u64, SegmentPayloadIntegrity))) {
        (self.segment_id, (self.blocks, (self.bytes, self.integrity)))
    }
}

impl DurableCodec for SegmentDescriptor {
    open spec fn same(&self, other: &SegmentDescriptor) -> bool {
        *self == *other
    }

    proof fn lemma_unambiguous(a: &SegmentDescriptor, b: &SegmentDescriptor, a_tail: Seq<u8>, b_tail: Seq<u8>) {
        reveal(<SegmentDescriptor as DurableEncode>::wire);
        reveal(pair_same);
        <(SegmentId, (BlockCount, (u64, SegmentPayloadIntegrity)))>::lemma_unambiguous(&a.fields(), &b.fields(), a_tail, b_tail);
        assert(a.same(b));
    }

    fn decode(input: &mut DurableDecoder<'_>) -> (result: Result<SegmentDescriptor, StorageError>) {
        reveal(<SegmentDescriptor as DurableEncode>::wire);
        let ghost whole = input.rest();
        match <(SegmentId, (BlockCount, (u64, SegmentPayloadIntegrity)))>::decode(input) {
            Ok((segment_id, (blocks, (bytes, integrity)))) => {
                let value = SegmentDescriptor { segment_id, blocks, bytes, integrity };
                proof {
                    lemma_starts_with_value(value, input.rest());
                }
                Ok(value)
            },
            Err(error) => {
                proof {
                    assert forall|value: SegmentDescriptor, tail: Seq<u8>|
                        value.durable() && #[trigger] (value.wire() + tail) == whole implies false by {
                        lemma_starts_with_value(value.fields(), tail);
                    }
                }
                Err(error)
            },
        }
    }
}

/// A device shard that got a new root.
#[derive(Clone, Copy, Debug, PartialEq, Eq, Structural)]
pub struct ShardRootUpdate {
    pub shard_id: ShardId,
    pub old_root: MetadataNodeId,
    pub new_root: MetadataNodeId,
}

impl DurableEncode for ShardRootUpdate {
    #[verifier::opaque]
    open spec fn wire(&self) -> Seq<u8> {
        self.fields().wire()
    }

    open spec fn durable(&self) -> bool {
        self.fields().durable()
    }

    fn encode(&self, out: &mut DurableEncoder) -> (result: Result<(), StorageError>) {
        reveal(pair_wire);
        reveal(<ShardRootUpdate as DurableEncode>::wire);
        (&self.shard_id, (&self.old_root, &self.new_root)).encode(out)
    }
}

impl ShardRootUpdate {
    pub open spec fn fields(self) -> (ShardId, (MetadataNodeId, MetadataNodeId)) {
        (self.shard_id, (self.old_root, self.new_root))
    }
}

impl DurableCodec for ShardRootUpdate {
    open spec fn same(&self, other: &ShardRootUpdate) -> bool {
        *self == *other
    }

    proof fn lemma_unambiguous(a: &ShardRootUpdate, b: &ShardRootUpdate, a_tail: Seq<u8>, b_tail: Seq<u8>) {
        reveal(<ShardRootUpdate as DurableEncode>::wire);
        reveal(pair_same);
        <(ShardId, (MetadataNodeId, MetadataNodeId))>::lemma_unambiguous(&a.fields(), &b.fields(), a_tail, b_tail);
        assert(a.same(b));
    }

    fn decode(input: &mut DurableDecoder<'_>) -> (result: Result<ShardRootUpdate, StorageError>) {
        reveal(<ShardRootUpdate as DurableEncode>::wire);
        let ghost whole = input.rest();
        match <(ShardId, (MetadataNodeId, MetadataNodeId))>::decode(input) {
            Ok((shard_id, (old_root, new_root))) => {
                let value = ShardRootUpdate { shard_id, old_root, new_root };
                proof {
                    lemma_starts_with_value(value, input.rest());
                }
                Ok(value)
            },
            Err(error) => {
                proof {
                    assert forall|value: ShardRootUpdate, tail: Seq<u8>|
                        value.durable() && #[trigger] (value.wire() + tail) == whole implies false by {
                        lemma_starts_with_value(value.fields(), tail);
                    }
                }
                Err(error)
            },
        }
    }
}

/// One root that a commit group moved.
#[derive(Clone, Copy, Debug, PartialEq, Eq, Structural)]
pub enum RootUpdate {
    BlockShard(ShardRootUpdate),
    FileCreated { file_id: FileId, new_root: MetadataNodeId, new_size: u64 },
    FileRoot {
        file_id: FileId,
        old_root: MetadataNodeId,
        new_root: MetadataNodeId,
        new_size: u64,
    },
}

impl RootUpdate {
    /// The byte that tells the variants apart.
    pub open spec fn tag(&self) -> u8 {
        match self {
            RootUpdate::BlockShard(_) => 1,
            RootUpdate::FileCreated { .. } => 2,
            RootUpdate::FileRoot { .. } => 3,
        }
    }

    /// The bytes behind the tag.
    pub open spec fn body(&self) -> Seq<u8> {
        match *self {
            RootUpdate::BlockShard(update) => update.wire(),
            RootUpdate::FileCreated { file_id, new_root, new_size } => (file_id, (new_root, new_size)).wire(),
            RootUpdate::FileRoot { file_id, old_root, new_root, new_size } => (file_id, (old_root, (new_root, new_size))).wire(),
        }
    }
}

impl DurableEncode for RootUpdate {
    #[verifier::opaque]
    open spec fn wire(&self) -> Seq<u8> {
        seq![self.tag()] + self.body()
    }

    open spec fn durable(&self) -> bool {
        match *self {
            RootUpdate::BlockShard(update) => update.durable(),
            RootUpdate::FileCreated { file_id, new_root, new_size } => (file_id, (new_root, new_size)).durable(),
            RootUpdate::FileRoot { file_id, old_root, new_root, new_size } => (file_id, (old_root, (new_root, new_size))).durable(),
        }
    }

    fn encode(&self, out: &mut DurableEncoder) -> (result: Result<(), StorageError>) {
        reveal(pair_wire);
        reveal(<RootUpdate as DurableEncode>::wire);
        match self {
            RootUpdate::BlockShard(update) => {
                out.put_u8(1);
                update.encode(out)?;
            },
            RootUpdate::FileCreated { file_id, new_root, new_size } => {
                out.put_u8(2);
                (file_id, (new_root, new_size)).encode(out)?;
            },
            RootUpdate::FileRoot { file_id, old_root, new_root, new_size } => {
                out.put_u8(3);
                (file_id, (old_root, (new_root, new_size))).encode(out)?;
            },
        }
        assert(out@ =~= old(out)@ + self.wire());
        Ok(())
    }
}

impl DurableCodec for RootUpdate {
    open spec fn same(&self, other: &RootUpdate) -> bool {
        *self == *other
    }

    proof fn lemma_unambiguous(a: &RootUpdate, b: &RootUpdate, a_tail: Seq<u8>, b_tail: Seq<u8>) {
        reveal(<RootUpdate as DurableEncode>::wire);
        reveal(pair_same);
        lemma_drop_tag(a.tag(), a.body(), a_tail);
        lemma_drop_tag(b.tag(), b.body(), b_tail);
        match (*a, *b) {
            (RootUpdate::BlockShard(update), RootUpdate::BlockShard(b_update)) => {
                ShardRootUpdate::lemma_unambiguous(&update, &b_update, a_tail, b_tail);
            },
            (RootUpdate::FileCreated { file_id, new_root, new_size }, RootUpdate::FileCreated { file_id: b_file_id, new_root: b_new_root, new_size: b_new_size }) => {
                <(FileId, (MetadataNodeId, u64))>::lemma_unambiguous(&(file_id, (new_root, new_size)), &(b_file_id, (b_new_root, b_new_size)), a_tail, b_tail);
            },
            (RootUpdate::FileRoot { file_id, old_root, new_root, new_size }, RootUpdate::FileRoot { file_id: b_file_id, old_root: b_old_root, new_root: b_new_root, new_size: b_new_size }) => {
                <(FileId, (MetadataNodeId, (MetadataNodeId, u64)))>::lemma_unambiguous(&(file_id, (old_root, (new_root, new_size))), &(b_file_id, (b_old_root, (b_new_root, b_new_size))), a_tail, b_tail);
            },
            _ => {},
        }
    }

    fn decode(input: &mut DurableDecoder<'_>) -> (result: Result<RootUpdate, StorageError>) {
        reveal(<RootUpdate as DurableEncode>::wire);
        let ghost whole = input.rest();
        let tag: u8 = match input.u8() {
            Ok(tag) => tag,
            Err(error) => {
                proof {
                    assert forall|value: RootUpdate, tail: Seq<u8>| #[trigger]
                        (value.wire() + tail) == whole implies false by {
                        assert((value.wire() + tail).len() >= 1);
                    }
                }
                return Err(error);
            },
        };
        let ghost rest = input.rest();
        proof {
            assert forall|value: RootUpdate, tail: Seq<u8>| #[trigger]
                (value.wire() + tail) == whole implies value.tag() == tag && rest == value.body()
                + tail by {
                lemma_drop_tag(value.tag(), value.body(), tail);
                assert(whole.skip(1) =~= rest);
            }
        }
        match tag {
            1 => match ShardRootUpdate::decode(input) {
                Ok(update) => {
                    let value = RootUpdate::BlockShard(update);
                    proof {
                        assert(whole =~= value.wire() + input.rest());
                        lemma_starts_with_value(value, input.rest());
                    }
                    Ok(value)
                },
                Err(error) => {
                    proof {
                        assert forall|value: RootUpdate, tail: Seq<u8>|
                            value.durable() && #[trigger] (value.wire() + tail) == whole implies false by {
                            match value {
                                RootUpdate::BlockShard(update) => {
                                    lemma_starts_with_value(update, tail);
                                },
                                _ => {},
                            }
                        }
                    }
                    Err(error)
                },
            },
            2 => match <(FileId, (MetadataNodeId, u64))>::decode(input) {
                Ok((file_id, (new_root, new_size))) => {
                    let value = RootUpdate::FileCreated { file_id, new_root, new_size };
                    proof {
                        assert(whole =~= value.wire() + input.rest());
                        lemma_starts_with_value(value, input.rest());
                    }
                    Ok(value)
                },
                Err(error) => {
                    proof {
                        assert forall|value: RootUpdate, tail: Seq<u8>|
                            value.durable() && #[trigger] (value.wire() + tail) == whole implies false by {
                            match value {
                                RootUpdate::FileCreated { file_id, new_root, new_size } => {
                                    lemma_starts_with_value((file_id, (new_root, new_size)), tail);
                                },
                                _ => {},
                            }
                        }
                    }
                    Err(error)
                },
            },
            3 => match <(FileId, (MetadataNodeId, (MetadataNodeId, u64)))>::decode(input) {
                Ok((file_id, (old_root, (new_root, new_size)))) => {
                    let value = RootUpdate::FileRoot { file_id, old_root, new_root, new_size };
                    proof {
                        assert(whole =~= value.wire() + input.rest());
                        lemma_starts_with_value(value, input.rest());
                    }
                    Ok(value)
                },
                Err(error) => {
                    proof {
                        assert forall|value: RootUpdate, tail: Seq<u8>|
                            value.durable() && #[trigger] (value.wire() + tail) == whole implies false by {
                            match value {
                                RootUpdate::FileRoot { file_id, old_root, new_root, new_size } => {
                                    lemma_starts_with_value((file_id, (old_root, (new_root, new_size))), tail);
                                },
                                _ => {},
                            }
                        }
                    }
                    Err(error)
                },
            },
            _ => Err(durable_codec_error("invalid root update tag")),
        }
    }
}

/// Root updates that became visible together.
#[derive(Clone, Debug, PartialEq, Eq)]
pub struct CommitGroup {
    pub commit_group: CommitGroupId,
    pub commit_seq: CommitSeq,
    pub owner: MappingOwner,
    pub updates: Vec<RootUpdate>,
}

impl DurableEncode for CommitGroup {
    #[verifier::opaque]
    open spec fn wire(&self) -> Seq<u8> {
        self.fields().wire()
    }

    open spec fn durable(&self) -> bool {
        self.fields().durable()
    }

    fn encode(&self, out: &mut DurableEncoder) -> (result: Result<(), StorageError>) {
        reveal(pair_wire);
        reveal(<CommitGroup as DurableEncode>::wire);
        (&self.commit_group, (&self.commit_seq, (&self.owner, &self.updates))).encode(out)
    }
}

impl CommitGroup {
    pub open spec fn fields(self) -> (CommitGroupId, (CommitSeq, (MappingOwner, Vec<RootUpdate>))) {
        (self.commit_group, (self.commit_seq, (self.owner, self.updates)))
    }
}

impl DurableCodec for CommitGroup {
    open spec fn same(&self, other: &CommitGroup) -> bool {
        self.fields().same(&other.fields())
    }

    proof fn lemma_unambiguous(a: &CommitGroup, b: &CommitGroup, a_tail: Seq<u8>, b_tail: Seq<u8>) {
        reveal(<CommitGroup as DurableEncode>::wire);
        <(CommitGroupId, (CommitSeq, (MappingOwner, Vec<RootUpdate>)))>::lemma_unambiguous(&a.fields(), &b.fields(), a_tail, b_tail);
        assert(a.same(b));
    }

    fn decode(input: &mut DurableDecoder<'_>) -> (result: Result<CommitGroup, StorageError>) {
        reveal(<CommitGroup as DurableEncode>::wire);
        let ghost whole = input.rest();
        match <(CommitGroupId, (CommitSeq, (MappingOwner, Vec<RootUpdate>)))>::decode(input) {
            Ok((commit_group, (commit_seq, (owner, updates)))) => {
                let value = CommitGroup { commit_group, commit_seq, owner, updates };
                proof {
                    lemma_starts_with_value(value, input.rest());
                }
                Ok(value)
            },
            Err(error) => {
                proof {
                    assert forall|value: CommitGroup, tail: Seq<u8>|
                        value.durable() && #[trigger] (value.wire() + tail) == whole implies false by {
                        lemma_starts_with_value(value.fields(), tail);
                    }
                }
                Err(error)
            },
        }
    }
}

/// A device that was made from another.
#[derive(Clone, Debug, PartialEq, Eq)]
pub struct ForkRecord {
    pub commit_seq: CommitSeq,
    pub source: DeviceId,
    pub target: DeviceId,
    pub shard_roots: Vec<MetadataNodeId>,
}

impl DurableEncode for ForkRecord {
    #[verifier::opaque]
    open spec fn wire(&self) -> Seq<u8> {
        self.fields().wire()
    }

    open spec fn durable(&self) -> bool {
        self.fields().durable()
    }

    fn encode(&self, out: &mut DurableEncoder) -> (result: Result<(), StorageError>) {
        reveal(pair_wire);
        reveal(<ForkRecord as DurableEncode>::wire);
        (&self.commit_seq, (&self.source, (&self.target, &self.shard_roots))).encode(out)
    }
}

impl ForkRecord {
    pub open spec fn fields(self) -> (CommitSeq, (DeviceId, (DeviceId, Vec<MetadataNodeId>))) {
        (self.commit_seq, (self.source, (self.target, self.shard_roots)))
    }
}

impl DurableCodec for ForkRecord {
    open spec fn same(&self, other: &ForkRecord) -> bool {
        self.fields().same(&other.fields())
    }

    proof fn lemma_unambiguous(a: &ForkRecord, b: &ForkRecord, a_tail: Seq<u8>, b_tail: Seq<u8>) {
        reveal(<ForkRecord as DurableEncode>::wire);
        <(CommitSeq, (DeviceId, (DeviceId, Vec<MetadataNodeId>)))>::lemma_unambiguous(&a.fields(), &b.fields(), a_tail, b_tail);
        assert(a.same(b));
    }

    fn decode(input: &mut DurableDecoder<'_>) -> (result: Result<ForkRecord, StorageError>) {
        reveal(<ForkRecord as DurableEncode>::wire);
        let ghost whole = input.rest();
        match <(CommitSeq, (DeviceId, (DeviceId, Vec<MetadataNodeId>)))>::decode(input) {
            Ok((commit_seq, (source, (target, shard_roots)))) => {
                let value = ForkRecord { commit_seq, source, target, shard_roots };
                proof {
                    lemma_starts_with_value(value, input.rest());
                }
                Ok(value)
            },
            Err(error) => {
                proof {
                    assert forall|value: ForkRecord, tail: Seq<u8>|
                        value.durable() && #[trigger] (value.wire() + tail) == whole implies false by {
                        lemma_starts_with_value(value.fields(), tail);
                    }
                }
                Err(error)
            },
        }
    }
}

/// A device shard's step in the history.
#[derive(Clone, Copy, Debug, PartialEq, Eq, Structural)]
pub struct ShardCommit {
    pub commit_seq: CommitSeq,
    pub commit_group: CommitGroupId,
    pub time: LogicalTime,
    pub device_id: DeviceId,
    pub shard_id: ShardId,
    pub old_root: MetadataNodeId,
    pub new_root: MetadataNodeId,
}

impl DurableEncode for ShardCommit {
    #[verifier::opaque]
    open spec fn wire(&self) -> Seq<u8> {
        self.fields().wire()
    }

    open spec fn durable(&self) -> bool {
        self.fields().durable()
    }

    fn encode(&self, out: &mut DurableEncoder) -> (result: Result<(), StorageError>) {
        reveal(pair_wire);
        reveal(<ShardCommit as DurableEncode>::wire);
        ((&self.commit_seq, (&self.commit_group, (&self.time, &self.device_id))), (&self.shard_id, (&self.old_root, &self.new_root))).encode(out)
    }
}

impl ShardCommit {
    pub open spec fn fields(self) -> ((CommitSeq, (CommitGroupId, (LogicalTime, DeviceId))), (ShardId, (MetadataNodeId, MetadataNodeId))) {
        ((self.commit_seq, (self.commit_group, (self.time, self.device_id))), (self.shard_id, (self.old_root, self.new_root)))
    }
}

impl DurableCodec for ShardCommit {
    open spec fn same(&self, other: &ShardCommit) -> bool {
        *self == *other
    }

    proof fn lemma_unambiguous(a: &ShardCommit, b: &ShardCommit, a_tail: Seq<u8>, b_tail: Seq<u8>) {
        reveal(<ShardCommit as DurableEncode>::wire);
        reveal(pair_same);
        <((CommitSeq, (CommitGroupId, (LogicalTime, DeviceId))), (ShardId, (MetadataNodeId, MetadataNodeId)))>::lemma_unambiguous(&a.fields(), &b.fields(), a_tail, b_tail);
        assert(a.same(b));
    }

    fn decode(input: &mut DurableDecoder<'_>) -> (result: Result<ShardCommit, StorageError>) {
        reveal(<ShardCommit as DurableEncode>::wire);
        let ghost whole = input.rest();
        match <((CommitSeq, (CommitGroupId, (LogicalTime, DeviceId))), (ShardId, (MetadataNodeId, MetadataNodeId)))>::decode(input) {
            Ok(((commit_seq, (commit_group, (time, device_id))), (shard_id, (old_root, new_root)))) => {
                let value = ShardCommit { commit_seq, commit_group, time, device_id, shard_id, old_root, new_root };
                proof {
                    lemma_starts_with_value(value, input.rest());
                }
                Ok(value)
            },
            Err(error) => {
                proof {
                    assert forall|value: ShardCommit, tail: Seq<u8>|
                        value.durable() && #[trigger] (value.wire() + tail) == whole implies false by {
                        lemma_starts_with_value(value.fields(), tail);
                    }
                }
                Err(error)
            },
        }
    }
}

/// A keyspace shard's step in the history.
#[derive(Clone, Copy, Debug, PartialEq, Eq, Structural)]
pub struct KeyspaceCommit {
    pub commit_seq: CommitSeq,
    pub commit_group: CommitGroupId,
    pub time: LogicalTime,
    pub keyspace_id: KeyspaceId,
    pub shard_index: u32,
    pub old_shard: KeyspaceCatalogShardId,
    pub new_shard: KeyspaceCatalogShardId,
    pub old_file_count: usize,
    pub new_file_count: usize,
}

impl DurableEncode for KeyspaceCommit {
    #[verifier::opaque]
    open spec fn wire(&self) -> Seq<u8> {
        self.fields().wire()
    }

    open spec fn durable(&self) -> bool {
        self.fields().durable()
    }

    fn encode(&self, out: &mut DurableEncoder) -> (result: Result<(), StorageError>) {
        reveal(pair_wire);
        reveal(<KeyspaceCommit as DurableEncode>::wire);
        (((&self.commit_seq, (&self.commit_group, (&self.time, &self.keyspace_id))), (&self.shard_index, (&self.old_shard, (&self.new_shard, &self.old_file_count)))), &self.new_file_count).encode(out)
    }
}

impl KeyspaceCommit {
    pub open spec fn fields(self) -> (((CommitSeq, (CommitGroupId, (LogicalTime, KeyspaceId))), (u32, (KeyspaceCatalogShardId, (KeyspaceCatalogShardId, usize)))), usize) {
        (((self.commit_seq, (self.commit_group, (self.time, self.keyspace_id))), (self.shard_index, (self.old_shard, (self.new_shard, self.old_file_count)))), self.new_file_count)
    }
}

impl DurableCodec for KeyspaceCommit {
    open spec fn same(&self, other: &KeyspaceCommit) -> bool {
        *self == *other
    }

    proof fn lemma_unambiguous(a: &KeyspaceCommit, b: &KeyspaceCommit, a_tail: Seq<u8>, b_tail: Seq<u8>) {
        reveal(<KeyspaceCommit as DurableEncode>::wire);
        reveal(pair_same);
        <(((CommitSeq, (CommitGroupId, (LogicalTime, KeyspaceId))), (u32, (KeyspaceCatalogShardId, (KeyspaceCatalogShardId, usize)))), usize)>::lemma_unambiguous(&a.fields(), &b.fields(), a_tail, b_tail);
        assert(a.same(b));
    }

    fn decode(input: &mut DurableDecoder<'_>) -> (result: Result<KeyspaceCommit, StorageError>) {
        reveal(<KeyspaceCommit as DurableEncode>::wire);
        let ghost whole = input.rest();
        match <(((CommitSeq, (CommitGroupId, (LogicalTime, KeyspaceId))), (u32, (KeyspaceCatalogShardId, (KeyspaceCatalogShardId, usize)))), usize)>::decode(input) {
            Ok((((commit_seq, (commit_group, (time, keyspace_id))), (shard_index, (old_shard, (new_shard, old_file_count)))), new_file_count)) => {
                let value = KeyspaceCommit { commit_seq, commit_group, time, keyspace_id, shard_index, old_shard, new_shard, old_file_count, new_file_count };
                proof {
                    lemma_starts_with_value(value, input.rest());
                }
                Ok(value)
            },
            Err(error) => {
                proof {
                    assert forall|value: KeyspaceCommit, tail: Seq<u8>|
                        value.durable() && #[trigger] (value.wire() + tail) == whole implies false by {
                        lemma_starts_with_value(value.fields(), tail);
                    }
                }
                Err(error)
            },
        }
    }
}

/// A file's step in the history.
#[derive(Clone, Copy, Debug, PartialEq, Eq, Structural)]
pub struct FileCommit {
    pub commit_seq: CommitSeq,
    pub commit_group: CommitGroupId,
    pub time: LogicalTime,
    pub keyspace_id: KeyspaceId,
    pub file_id: FileId,
    pub old_root: Option<MetadataNodeId>,
    pub new_root: MetadataNodeId,
    pub old_version: Option<FileVersion>,
    pub new_version: FileVersion,
    pub old_size: u64,
    pub new_size: u64,
}

impl DurableEncode for FileCommit {
    #[verifier::opaque]
    open spec fn wire(&self) -> Seq<u8> {
        self.fields().wire()
    }

    open spec fn durable(&self) -> bool {
        self.fields().durable()
    }

    fn encode(&self, out: &mut DurableEncoder) -> (result: Result<(), StorageError>) {
        reveal(pair_wire);
        reveal(<FileCommit as DurableEncode>::wire);
        (((&self.commit_seq, (&self.commit_group, (&self.time, &self.keyspace_id))), (&self.file_id, (&self.old_root, (&self.new_root, &self.old_version)))), (&self.new_version, (&self.old_size, &self.new_size))).encode(out)
    }
}

impl FileCommit {
    pub open spec fn fields(self) -> (((CommitSeq, (CommitGroupId, (LogicalTime, KeyspaceId))), (FileId, (Option<MetadataNodeId>, (MetadataNodeId, Option<FileVersion>)))), (FileVersion, (u64, u64))) {
        (((self.commit_seq, (self.commit_group, (self.time, self.keyspace_id))), (self.file_id, (self.old_root, (self.new_root, self.old_version)))), (self.new_version, (self.old_size, self.new_size)))
    }
}

impl DurableCodec for FileCommit {
    open spec fn same(&self, other: &FileCommit) -> bool {
        *self == *other
    }

    proof fn lemma_unambiguous(a: &FileCommit, b: &FileCommit, a_tail: Seq<u8>, b_tail: Seq<u8>) {
        reveal(<FileCommit as DurableEncode>::wire);
        reveal(pair_same);
        <(((CommitSeq, (CommitGroupId, (LogicalTime, KeyspaceId))), (FileId, (Option<MetadataNodeId>, (MetadataNodeId, Option<FileVersion>)))), (FileVersion, (u64, u64)))>::lemma_unambiguous(&a.fields(), &b.fields(), a_tail, b_tail);
        assert(a.same(b));
    }

    fn decode(input: &mut DurableDecoder<'_>) -> (result: Result<FileCommit, StorageError>) {
        reveal(<FileCommit as DurableEncode>::wire);
        let ghost whole = input.rest();
        match <(((CommitSeq, (CommitGroupId, (LogicalTime, KeyspaceId))), (FileId, (Option<MetadataNodeId>, (MetadataNodeId, Option<FileVersion>)))), (FileVersion, (u64, u64)))>::decode(input) {
            Ok((((commit_seq, (commit_group, (time, keyspace_id))), (file_id, (old_root, (new_root, old_version)))), (new_version, (old_size, new_size)))) => {
                let value = FileCommit { commit_seq, commit_group, time, keyspace_id, file_id, old_root, new_root, old_version, new_version, old_size, new_size };
                proof {
                    lemma_starts_with_value(value, input.rest());
                }
                Ok(value)
            },
            Err(error) => {
                proof {
                    assert forall|value: FileCommit, tail: Seq<u8>|
                        value.durable() && #[trigger] (value.wire() + tail) == whole implies false by {
                        lemma_starts_with_value(value.fields(), tail);
                    }
                }
                Err(error)
            },
        }
    }
}

/// A device that was deleted.
#[derive(Clone, Debug, PartialEq, Eq)]
pub struct DeleteRecord {
    pub commit_seq: CommitSeq,
    pub time: LogicalTime,
    pub device_id: DeviceId,
    pub shard_roots: Vec<MetadataNodeId>,
}

impl DurableEncode for DeleteRecord {
    #[verifier::opaque]
    open spec fn wire(&self) -> Seq<u8> {
        self.fields().wire()
    }

    open spec fn durable(&self) -> bool {
        self.fields().durable()
    }

    fn encode(&self, out: &mut DurableEncoder) -> (result: Result<(), StorageError>) {
        reveal(pair_wire);
        reveal(<DeleteRecord as DurableEncode>::wire);
        (&self.commit_seq, (&self.time, (&self.device_id, &self.shard_roots))).encode(out)
    }
}

impl DeleteRecord {
    pub open spec fn fields(self) -> (CommitSeq, (LogicalTime, (DeviceId, Vec<MetadataNodeId>))) {
        (self.commit_seq, (self.time, (self.device_id, self.shard_roots)))
    }
}

impl DurableCodec for DeleteRecord {
    open spec fn same(&self, other: &DeleteRecord) -> bool {
        self.fields().same(&other.fields())
    }

    proof fn lemma_unambiguous(a: &DeleteRecord, b: &DeleteRecord, a_tail: Seq<u8>, b_tail: Seq<u8>) {
        reveal(<DeleteRecord as DurableEncode>::wire);
        <(CommitSeq, (LogicalTime, (DeviceId, Vec<MetadataNodeId>)))>::lemma_unambiguous(&a.fields(), &b.fields(), a_tail, b_tail);
        assert(a.same(b));
    }

    fn decode(input: &mut DurableDecoder<'_>) -> (result: Result<DeleteRecord, StorageError>) {
        reveal(<DeleteRecord as DurableEncode>::wire);
        let ghost whole = input.rest();
        match <(CommitSeq, (LogicalTime, (DeviceId, Vec<MetadataNodeId>)))>::decode(input) {
            Ok((commit_seq, (time, (device_id, shard_roots)))) => {
                let value = DeleteRecord { commit_seq, time, device_id, shard_roots };
                proof {
                    lemma_starts_with_value(value, input.rest());
                }
                Ok(value)
            },
            Err(error) => {
                proof {
                    assert forall|value: DeleteRecord, tail: Seq<u8>|
                        value.durable() && #[trigger] (value.wire() + tail) == whole implies false by {
                        lemma_starts_with_value(value.fields(), tail);
                    }
                }
                Err(error)
            },
        }
    }
}

/// What a checkpoint keeps.
#[derive(Clone, Debug, PartialEq, Eq)]
pub enum CheckpointRoots {
    BlockShard(Vec<MetadataNodeId>),
    NativeKeyspace(KeyspaceRootId),
}

impl CheckpointRoots {
    /// The byte that tells the variants apart.
    pub open spec fn tag(&self) -> u8 {
        match self {
            CheckpointRoots::BlockShard(_) => 1,
            CheckpointRoots::NativeKeyspace(_) => 2,
        }
    }

    /// The bytes behind the tag.
    pub open spec fn body(&self) -> Seq<u8> {
        match *self {
            CheckpointRoots::BlockShard(roots) => roots.wire(),
            CheckpointRoots::NativeKeyspace(root) => root.wire(),
        }
    }
}

impl DurableEncode for CheckpointRoots {
    #[verifier::opaque]
    open spec fn wire(&self) -> Seq<u8> {
        seq![self.tag()] + self.body()
    }

    open spec fn durable(&self) -> bool {
        match *self {
            CheckpointRoots::BlockShard(roots) => roots.durable(),
            CheckpointRoots::NativeKeyspace(root) => root.durable(),
        }
    }

    fn encode(&self, out: &mut DurableEncoder) -> (result: Result<(), StorageError>) {
        reveal(<CheckpointRoots as DurableEncode>::wire);
        match self {
            CheckpointRoots::BlockShard(roots) => {
                out.put_u8(1);
                roots.encode(out)?;
            },
            CheckpointRoots::NativeKeyspace(root) => {
                out.put_u8(2);
                root.encode(out)?;
            },
        }
        assert(out@ =~= old(out)@ + self.wire());
        Ok(())
    }
}

impl DurableCodec for CheckpointRoots {
    open spec fn same(&self, other: &CheckpointRoots) -> bool {
        match (*self, *other) {
            (CheckpointRoots::BlockShard(roots), CheckpointRoots::BlockShard(other_roots)) => {
                roots.same(&other_roots)
            },
            (CheckpointRoots::NativeKeyspace(root), CheckpointRoots::NativeKeyspace(other_root)) => {
                root.same(&other_root)
            },
            _ => false,
        }
    }

    proof fn lemma_unambiguous(a: &CheckpointRoots, b: &CheckpointRoots, a_tail: Seq<u8>, b_tail: Seq<u8>) {
        reveal(<CheckpointRoots as DurableEncode>::wire);
        lemma_drop_tag(a.tag(), a.body(), a_tail);
        lemma_drop_tag(b.tag(), b.body(), b_tail);
        match (*a, *b) {
            (CheckpointRoots::BlockShard(roots), CheckpointRoots::BlockShard(b_roots)) => {
                <Vec<MetadataNodeId>>::lemma_unambiguous(&roots, &b_roots, a_tail, b_tail);
            },
            (CheckpointRoots::NativeKeyspace(root), CheckpointRoots::NativeKeyspace(b_root)) => {
                KeyspaceRootId::lemma_unambiguous(&root, &b_root, a_tail, b_tail);
            },
            _ => {},
        }
    }

    fn decode(input: &mut DurableDecoder<'_>) -> (result: Result<CheckpointRoots, StorageError>) {
        reveal(<CheckpointRoots as DurableEncode>::wire);
        let ghost whole = input.rest();
        let tag: u8 = match input.u8() {
            Ok(tag) => tag,
            Err(error) => {
                proof {
                    assert forall|value: CheckpointRoots, tail: Seq<u8>| #[trigger]
                        (value.wire() + tail) == whole implies false by {
                        assert((value.wire() + tail).len() >= 1);
                    }
                }
                return Err(error);
            },
        };
        let ghost rest = input.rest();
        proof {
            assert forall|value: CheckpointRoots, tail: Seq<u8>| #[trigger]
                (value.wire() + tail) == whole implies value.tag() == tag && rest == value.body()
                + tail by {
                lemma_drop_tag(value.tag(), value.body(), tail);
                assert(whole.skip(1) =~= rest);
            }
        }
        match tag {
            1 => match <Vec<MetadataNodeId>>::decode(input) {
                Ok(roots) => {
                    let value = CheckpointRoots::BlockShard(roots);
                    proof {
                        assert(whole =~= value.wire() + input.rest());
                        lemma_starts_with_value(value, input.rest());
                    }
                    Ok(value)
                },
                Err(error) => {
                    proof {
                        assert forall|value: CheckpointRoots, tail: Seq<u8>|
                            value.durable() && #[trigger] (value.wire() + tail) == whole implies false by {
                            match value {
                                CheckpointRoots::BlockShard(roots) => {
                                    lemma_starts_with_value(roots, tail);
                                },
                                _ => {},
                            }
                        }
                    }
                    Err(error)
                },
            },
            2 => match KeyspaceRootId::decode(input) {
                Ok(root) => {
                    let value = CheckpointRoots::NativeKeyspace(root);
                    proof {
                        assert(whole =~= value.wire() + input.rest());
                        lemma_starts_with_value(value, input.rest());
                    }
                    Ok(value)
                },
                Err(error) => {
                    proof {
                        assert forall|value: CheckpointRoots, tail: Seq<u8>|
                            value.durable() && #[trigger] (value.wire() + tail) == whole implies false by {
                            match value {
                                CheckpointRoots::NativeKeyspace(root) => {
                                    lemma_starts_with_value(root, tail);
                                },
                                _ => {},
                            }
                        }
                    }
                    Err(error)
                },
            },
            _ => Err(durable_codec_error("invalid checkpoint roots tag")),
        }
    }
}

/// A named point in the history.
#[derive(Clone, Debug, PartialEq, Eq)]
pub struct Checkpoint {
    pub checkpoint_id: CheckpointId,
    pub commit_seq: CommitSeq,
    pub time: LogicalTime,
    pub owner: MappingOwner,
    pub roots: CheckpointRoots,
}

impl DurableEncode for Checkpoint {
    #[verifier::opaque]
    open spec fn wire(&self) -> Seq<u8> {
        self.fields().wire()
    }

    open spec fn durable(&self) -> bool {
        self.fields().durable()
    }

    fn encode(&self, out: &mut DurableEncoder) -> (result: Result<(), StorageError>) {
        reveal(pair_wire);
        reveal(<Checkpoint as DurableEncode>::wire);
        ((&self.checkpoint_id, (&self.commit_seq, (&self.time, &self.owner))), &self.roots).encode(out)
    }
}

impl Checkpoint {
    pub open spec fn fields(self) -> ((CheckpointId, (CommitSeq, (LogicalTime, MappingOwner))), CheckpointRoots) {
        ((self.checkpoint_id, (self.commit_seq, (self.time, self.owner))), self.roots)
    }
}

impl DurableCodec for Checkpoint {
    open spec fn same(&self, other: &Checkpoint) -> bool {
        self.fields().same(&other.fields())
    }

    proof fn lemma_unambiguous(a: &Checkpoint, b: &Checkpoint, a_tail: Seq<u8>, b_tail: Seq<u8>) {
        reveal(<Checkpoint as DurableEncode>::wire);
        <((CheckpointId, (CommitSeq, (LogicalTime, MappingOwner))), CheckpointRoots)>::lemma_unambiguous(&a.fields(), &b.fields(), a_tail, b_tail);
        assert(a.same(b));
    }

    fn decode(input: &mut DurableDecoder<'_>) -> (result: Result<Checkpoint, StorageError>) {
        reveal(<Checkpoint as DurableEncode>::wire);
        let ghost whole = input.rest();
        match <((CheckpointId, (CommitSeq, (LogicalTime, MappingOwner))), CheckpointRoots)>::decode(input) {
            Ok(((checkpoint_id, (commit_seq, (time, owner))), roots)) => {
                let value = Checkpoint { checkpoint_id, commit_seq, time, owner, roots };
                proof {
                    lemma_starts_with_value(value, input.rest());
                }
                Ok(value)
            },
            Err(error) => {
                proof {
                    assert forall|value: Checkpoint, tail: Seq<u8>|
                        value.durable() && #[trigger] (value.wire() + tail) == whole implies false by {
                        lemma_starts_with_value(value.fields(), tail);
                    }
                }
                Err(error)
            },
        }
    }
}

/// What a stream may still do.
#[derive(Clone, Copy, Debug, PartialEq, Eq, Structural)]
pub enum AppendStreamStatus {
    Active,
    Released,
    Fenced,
    Aborted,
}

impl AppendStreamStatus {
    /// The byte that tells the variants apart.
    pub open spec fn tag(&self) -> u8 {
        match self {
            AppendStreamStatus::Active => 1,
            AppendStreamStatus::Released => 2,
            AppendStreamStatus::Fenced => 3,
            AppendStreamStatus::Aborted => 4,
        }
    }
}

impl DurableEncode for AppendStreamStatus {
    #[verifier::opaque]
    open spec fn wire(&self) -> Seq<u8> {
        seq![self.tag()]
    }

    open spec fn durable(&self) -> bool {
        true
    }

    fn encode(&self, out: &mut DurableEncoder) -> (result: Result<(), StorageError>) {
        reveal(<AppendStreamStatus as DurableEncode>::wire);
        match self {
            AppendStreamStatus::Active => out.put_u8(1),
            AppendStreamStatus::Released => out.put_u8(2),
            AppendStreamStatus::Fenced => out.put_u8(3),
            AppendStreamStatus::Aborted => out.put_u8(4),
        }
        Ok(())
    }
}

impl DurableCodec for AppendStreamStatus {
    open spec fn same(&self, other: &AppendStreamStatus) -> bool {
        *self == *other
    }

    proof fn lemma_unambiguous(a: &AppendStreamStatus, b: &AppendStreamStatus, a_tail: Seq<u8>, b_tail: Seq<u8>) {
        reveal(<AppendStreamStatus as DurableEncode>::wire);
        lemma_split_unique(a.wire(), a_tail, b.wire(), b_tail);
        assert(a.wire()[0] == b.wire()[0]);
    }

    fn decode(input: &mut DurableDecoder<'_>) -> (result: Result<AppendStreamStatus, StorageError>) {
        reveal(<AppendStreamStatus as DurableEncode>::wire);
        let ghost whole = input.rest();
        let tag: u8 = match input.u8() {
            Ok(tag) => tag,
            Err(error) => {
                proof {
                    assert forall|value: AppendStreamStatus, tail: Seq<u8>| #[trigger]
                        (value.wire() + tail) == whole implies false by {
                        assert((value.wire() + tail).len() >= 1);
                    }
                }
                return Err(error);
            },
        };
        let ghost rest = input.rest();
        proof {
            assert forall|value: AppendStreamStatus, tail: Seq<u8>| #[trigger]
                (value.wire() + tail) == whole implies value.tag() == tag by {
                assert((value.wire() + tail)[0] == whole[0]);
            }
        }
        let value = match tag {
            1 => AppendStreamStatus::Active,
            2 => AppendStreamStatus::Released,
            3 => AppendStreamStatus::Fenced,
            4 => AppendStreamStatus::Aborted,
            _ => {
                return Err(durable_codec_error("invalid append stream status tag"));
            },
        };
        proof {
            lemma_starts_with_value(value, input.rest());
        }
        Ok(value)
    }
}

/// One append of a stream.
#[derive(Clone, Copy, Debug, PartialEq, Eq, Structural)]
pub struct AppendStreamRunRecord {
    pub ticket_id: AppendTicketId,
    pub offset: u64,
    pub len: u64,
    pub run: AppendLogRun,
}

impl DurableEncode for AppendStreamRunRecord {
    #[verifier::opaque]
    open spec fn wire(&self) -> Seq<u8> {
        self.fields().wire()
    }

    open spec fn durable(&self) -> bool {
        self.fields().durable()
    }

    fn encode(&self, out: &mut DurableEncoder) -> (result: Result<(), StorageError>) {
        reveal(pair_wire);
        reveal(<AppendStreamRunRecord as DurableEncode>::wire);
        (&self.ticket_id, (&self.offset, (&self.len, &self.run))).encode(out)
    }
}

impl AppendStreamRunRecord {
    pub open spec fn fields(self) -> (AppendTicketId, (u64, (u64, AppendLogRun))) {
        (self.ticket_id, (self.offset, (self.len, self.run)))
    }
}

impl DurableCodec for AppendStreamRunRecord {
    open spec fn same(&self, other: &AppendStreamRunRecord) -> bool {
        *self == *other
    }

    proof fn lemma_unambiguous(a: &AppendStreamRunRecord, b: &AppendStreamRunRecord, a_tail: Seq<u8>, b_tail: Seq<u8>) {
        reveal(<AppendStreamRunRecord as DurableEncode>::wire);
        reveal(pair_same);
        <(AppendTicketId, (u64, (u64, AppendLogRun)))>::lemma_unambiguous(&a.fields(), &b.fields(), a_tail, b_tail);
        assert(a.same(b));
    }

    fn decode(input: &mut DurableDecoder<'_>) -> (result: Result<AppendStreamRunRecord, StorageError>) {
        reveal(<AppendStreamRunRecord as DurableEncode>::wire);
        let ghost whole = input.rest();
        match <(AppendTicketId, (u64, (u64, AppendLogRun)))>::decode(input) {
            Ok((ticket_id, (offset, (len, run)))) => {
                let value = AppendStreamRunRecord { ticket_id, offset, len, run };
                proof {
                    lemma_starts_with_value(value, input.rest());
                }
                Ok(value)
            },
            Err(error) => {
                proof {
                    assert forall|value: AppendStreamRunRecord, tail: Seq<u8>|
                        value.durable() && #[trigger] (value.wire() + tail) == whole implies false by {
                        lemma_starts_with_value(value.fields(), tail);
                    }
                }
                Err(error)
            },
        }
    }
}

/// The state of a stream.
#[derive(Clone, Debug, PartialEq, Eq)]
pub struct AppendStreamState {
    pub keyspace_id: KeyspaceId,
    pub file_id: FileId,
    pub stream_id: AppendStreamId,
    pub writer_epoch: WriterEpoch,
    pub base_version: FileVersion,
    pub visible_base_size: u64,
    pub reserved_tail: u64,
    pub durable_through: u64,
    pub published_through: u64,
    pub status: AppendStreamStatus,
    pub records: Vec<AppendStreamRunRecord>,
}

impl DurableEncode for AppendStreamState {
    #[verifier::opaque]
    open spec fn wire(&self) -> Seq<u8> {
        self.fields().wire()
    }

    open spec fn durable(&self) -> bool {
        self.fields().durable()
    }

    fn encode(&self, out: &mut DurableEncoder) -> (result: Result<(), StorageError>) {
        reveal(pair_wire);
        reveal(<AppendStreamState as DurableEncode>::wire);
        (((&self.keyspace_id, (&self.file_id, (&self.stream_id, &self.writer_epoch))), (&self.base_version, (&self.visible_base_size, (&self.reserved_tail, &self.durable_through)))), (&self.published_through, (&self.status, &self.records))).encode(out)
    }
}

impl AppendStreamState {
    pub open spec fn fields(self) -> (((KeyspaceId, (FileId, (AppendStreamId, WriterEpoch))), (FileVersion, (u64, (u64, u64)))), (u64, (AppendStreamStatus, Vec<AppendStreamRunRecord>))) {
        (((self.keyspace_id, (self.file_id, (self.stream_id, self.writer_epoch))), (self.base_version, (self.visible_base_size, (self.reserved_tail, self.durable_through)))), (self.published_through, (self.status, self.records)))
    }
}

impl DurableCodec for AppendStreamState {
    open spec fn same(&self, other: &AppendStreamState) -> bool {
        self.fields().same(&other.fields())
    }

    proof fn lemma_unambiguous(a: &AppendStreamState, b: &AppendStreamState, a_tail: Seq<u8>, b_tail: Seq<u8>) {
        reveal(<AppendStreamState as DurableEncode>::wire);
        <(((KeyspaceId, (FileId, (AppendStreamId, WriterEpoch))), (FileVersion, (u64, (u64, u64)))), (u64, (AppendStreamStatus, Vec<AppendStreamRunRecord>)))>::lemma_unambiguous(&a.fields(), &b.fields(), a_tail, b_tail);
        assert(a.same(b));
    }

    fn decode(input: &mut DurableDecoder<'_>) -> (result: Result<AppendStreamState, StorageError>) {
        reveal(<AppendStreamState as DurableEncode>::wire);
        let ghost whole = input.rest();
        match <(((KeyspaceId, (FileId, (AppendStreamId, WriterEpoch))), (FileVersion, (u64, (u64, u64)))), (u64, (AppendStreamStatus, Vec<AppendStreamRunRecord>)))>::decode(input) {
            Ok((((keyspace_id, (file_id, (stream_id, writer_epoch))), (base_version, (visible_base_size, (reserved_tail, durable_through)))), (published_through, (status, records)))) => {
                let value = AppendStreamState { keyspace_id, file_id, stream_id, writer_epoch, base_version, visible_base_size, reserved_tail, durable_through, published_through, status, records };
                proof {
                    lemma_starts_with_value(value, input.rest());
                }
                Ok(value)
            },
            Err(error) => {
                proof {
                    assert forall|value: AppendStreamState, tail: Seq<u8>|
                        value.durable() && #[trigger] (value.wire() + tail) == whole implies false by {
                        lemma_starts_with_value(value.fields(), tail);
                    }
                }
                Err(error)
            },
        }
    }
}

} // verus!
