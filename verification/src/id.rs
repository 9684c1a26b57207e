//! Identifiers and counters, each a type of its own.
use vstd::prelude::*;

use crate::codec::{lemma_starts_with_value, DurableCodec, DurableDecoder, DurableEncode, DurableEncoder};
use crate::error::StorageError;

verus! {

/// A submitted request to publish an append stream.
#[derive(Clone, Copy, Debug, PartialEq, Eq, PartialOrd, Ord, Hash, Structural)]
pub struct AppendPublishTicketId(pub u128);

impl AppendPublishTicketId {
    pub fn from_raw(raw: u128) -> (id: AppendPublishTicketId)
        ensures
            id == AppendPublishTicketId(raw),
    {
        AppendPublishTicketId(raw)
    }

    pub fn raw(self) -> (raw: u128)
        ensures
            raw == self.0,
    {
        self.0
    }
}

impl DurableEncode for AppendPublishTicketId {
    open spec fn wire(&self) -> Seq<u8> {
        self.0.wire()
    }

    open spec fn durable(&self) -> bool {
        true
    }

    fn encode(&self, out: &mut DurableEncoder) -> (result: Result<(), StorageError>) {
        self.0.encode(out)
    }
}

impl DurableCodec for AppendPublishTicketId {
    open spec fn same(&self, other: &AppendPublishTicketId) -> bool {
        *self == *other
    }

    proof fn lemma_unambiguous(a: &AppendPublishTicketId, b: &AppendPublishTicketId, a_tail: Seq<u8>, b_tail: Seq<u8>) {
        u128::lemma_unambiguous(&a.0, &b.0, a_tail, b_tail);
        assert(a.same(b));
    }

    fn decode(input: &mut DurableDecoder<'_>) -> (result: Result<AppendPublishTicketId, StorageError>) {
        let ghost whole = input.rest();
        match u128::decode(input) {
            Ok(raw) => {
                let value = AppendPublishTicketId(raw);
                proof {
                    lemma_starts_with_value(value, input.rest());
                }
                Ok(value)
            },
            Err(error) => {
                proof {
                    assert forall|value: AppendPublishTicketId, tail: Seq<u8>| #[trigger]
                        (value.wire() + tail) == whole implies false by {
                        lemma_starts_with_value(value.0, tail);
                    }
                }
                Err(error)
            },
        }
    }
}

/// One run of appended bytes in a stream log.
#[derive(Clone, Copy, Debug, PartialEq, Eq, PartialOrd, Ord, Hash, Structural)]
pub struct AppendRunId(pub u128);

impl AppendRunId {
    pub fn from_raw(raw: u128) -> (id: AppendRunId)
        ensures
            id == AppendRunId(raw),
    {
        AppendRunId(raw)
    }

    pub fn raw(self) -> (raw: u128)
        ensures
            raw == self.0,
    {
        self.0
    }
}

impl DurableEncode for AppendRunId {
    open spec fn wire(&self) -> Seq<u8> {
        self.0.wire()
    }

    open spec fn durable(&self) -> bool {
        true
    }

    fn encode(&self, out: &mut DurableEncoder) -> (result: Result<(), StorageError>) {
        self.0.encode(out)
    }
}

impl DurableCodec for AppendRunId {
    open spec fn same(&self, other: &AppendRunId) -> bool {
        *self == *other
    }

    proof fn lemma_unambiguous(a: &AppendRunId, b: &AppendRunId, a_tail: Seq<u8>, b_tail: Seq<u8>) {
        u128::lemma_unambiguous(&a.0, &b.0, a_tail, b_tail);
        assert(a.same(b));
    }

    fn decode(input: &mut DurableDecoder<'_>) -> (result: Result<AppendRunId, StorageError>) {
        let ghost whole = input.rest();
        match u128::decode(input) {
            Ok(raw) => {
                let value = AppendRunId(raw);
                proof {
                    lemma_starts_with_value(value, input.rest());
                }
                Ok(value)
            },
            Err(error) => {
                proof {
                    assert forall|value: AppendRunId, tail: Seq<u8>| #[trigger]
                        (value.wire() + tail) == whole implies false by {
                        lemma_starts_with_value(value.0, tail);
                    }
                }
                Err(error)
            },
        }
    }
}

/// An open append stream.
#[derive(Clone, Copy, Debug, PartialEq, Eq, PartialOrd, Ord, Hash, Structural)]
pub struct AppendStreamId(pub u128);

impl AppendStreamId {
    pub fn from_raw(raw: u128) -> (id: AppendStreamId)
        ensures
            id == AppendStreamId(raw),
    {
        AppendStreamId(raw)
    }

    pub fn raw(self) -> (raw: u128)
        ensures
            raw == self.0,
    {
        self.0
    }
}

impl DurableEncode for AppendStreamId {
    open spec fn wire(&self) -> Seq<u8> {
        self.0.wire()
    }

    open spec fn durable(&self) -> bool {
        true
    }

    fn encode(&self, out: &mut DurableEncoder) -> (result: Result<(), StorageError>) {
        self.0.encode(out)
    }
}

impl DurableCodec for AppendStreamId {
    open spec fn same(&self, other: &AppendStreamId) -> bool {
        *self == *other
    }

    proof fn lemma_unambiguous(a: &AppendStreamId, b: &AppendStreamId, a_tail: Seq<u8>, b_tail: Seq<u8>) {
        u128::lemma_unambiguous(&a.0, &b.0, a_tail, b_tail);
        assert(a.same(b));
    }

    fn decode(input: &mut DurableDecoder<'_>) -> (result: Result<AppendStreamId, StorageError>) {
        let ghost whole = input.rest();
        match u128::decode(input) {
            Ok(raw) => {
                let value = AppendStreamId(raw);
                proof {
                    lemma_starts_with_value(value, input.rest());
                }
                Ok(value)
            },
            Err(error) => {
                proof {
                    assert forall|value: AppendStreamId, tail: Seq<u8>| #[trigger]
                        (value.wire() + tail) == whole implies false by {
                        lemma_starts_with_value(value.0, tail);
                    }
                }
                Err(error)
            },
        }
    }
}

/// One accepted append.
#[derive(Clone, Copy, Debug, PartialEq, Eq, PartialOrd, Ord, Hash, Structural)]
pub struct AppendTicketId(pub u128);

impl AppendTicketId {
    pub fn from_raw(raw: u128) -> (id: AppendTicketId)
        ensures
            id == AppendTicketId(raw),
    {
        AppendTicketId(raw)
    }

    pub fn raw(self) -> (raw: u128)
        ensures
            raw == self.0,
    {
        self.0
    }
}

impl DurableEncode for AppendTicketId {
    open spec fn wire(&self) -> Seq<u8> {
        self.0.wire()
    }

    open spec fn durable(&self) -> bool {
        true
    }

    fn encode(&self, out: &mut DurableEncoder) -> (result: Result<(), StorageError>) {
        self.0.encode(out)
    }
}

impl DurableCodec for AppendTicketId {
    open spec fn same(&self, other: &AppendTicketId) -> bool {
        *self == *other
    }

    proof fn lemma_unambiguous(a: &AppendTicketId, b: &AppendTicketId, a_tail: Seq<u8>, b_tail: Seq<u8>) {
        u128::lemma_unambiguous(&a.0, &b.0, a_tail, b_tail);
        assert(a.same(b));
    }

    fn decode(input: &mut DurableDecoder<'_>) -> (result: Result<AppendTicketId, StorageError>) {
        let ghost whole = input.rest();
        match u128::decode(input) {
            Ok(raw) => {
                let value = AppendTicketId(raw);
                proof {
                    lemma_starts_with_value(value, input.rest());
                }
                Ok(value)
            },
            Err(error) => {
                proof {
                    assert forall|value: AppendTicketId, tail: Seq<u8>| #[trigger]
                        (value.wire() + tail) == whole implies false by {
                        lemma_starts_with_value(value.0, tail);
                    }
                }
                Err(error)
            },
        }
    }
}

/// A named point in the history.
#[derive(Clone, Copy, Debug, PartialEq, Eq, PartialOrd, Ord, Hash, Structural)]
pub struct CheckpointId(pub u128);

impl CheckpointId {
    pub fn from_raw(raw: u128) -> (id: CheckpointId)
        ensures
            id == CheckpointId(raw),
    {
        CheckpointId(raw)
    }

    pub fn raw(self) -> (raw: u128)
        ensures
            raw == self.0,
    {
        self.0
    }
}

impl DurableEncode for CheckpointId {
    open spec fn wire(&self) -> Seq<u8> {
        self.0.wire()
    }

    open spec fn durable(&self) -> bool {
        true
    }

    fn encode(&self, out: &mut DurableEncoder) -> (result: Result<(), StorageError>) {
        self.0.encode(out)
    }
}

impl DurableCodec for CheckpointId {
    open spec fn same(&self, other: &CheckpointId) -> bool {
        *self == *other
    }

    proof fn lemma_unambiguous(a: &CheckpointId, b: &CheckpointId, a_tail: Seq<u8>, b_tail: Seq<u8>) {
        u128::lemma_unambiguous(&a.0, &b.0, a_tail, b_tail);
        assert(a.same(b));
    }

    fn decode(input: &mut DurableDecoder<'_>) -> (result: Result<CheckpointId, StorageError>) {
        let ghost whole = input.rest();
        match u128::decode(input) {
            Ok(raw) => {
                let value = CheckpointId(raw);
                proof {
                    lemma_starts_with_value(value, input.rest());
                }
                Ok(value)
            },
            Err(error) => {
                proof {
                    assert forall|value: CheckpointId, tail: Seq<u8>| #[trigger]
                        (value.wire() + tail) == whole implies false by {
                        lemma_starts_with_value(value.0, tail);
                    }
                }
                Err(error)
            },
        }
    }
}

/// Root updates that become visible together.
#[derive(Clone, Copy, Debug, PartialEq, Eq, PartialOrd, Ord, Hash, Structural)]
pub struct CommitGroupId(pub u128);

impl CommitGroupId {
    pub fn from_raw(raw: u128) -> (id: CommitGroupId)
        ensures
            id == CommitGroupId(raw),
    {
        CommitGroupId(raw)
    }

    pub fn raw(self) -> (raw: u128)
        ensures
            raw == self.0,
    {
        self.0
    }
}

impl DurableEncode for CommitGroupId {
    open spec fn wire(&self) -> Seq<u8> {
        self.0.wire()
    }

    open spec fn durable(&self) -> bool {
        true
    }

    fn encode(&self, out: &mut DurableEncoder) -> (result: Result<(), StorageError>) {
        self.0.encode(out)
    }
}

impl DurableCodec for CommitGroupId {
    open spec fn same(&self, other: &CommitGroupId) -> bool {
        *self == *other
    }

    proof fn lemma_unambiguous(a: &CommitGroupId, b: &CommitGroupId, a_tail: Seq<u8>, b_tail: Seq<u8>) {
        u128::lemma_unambiguous(&a.0, &b.0, a_tail, b_tail);
        assert(a.same(b));
    }

    fn decode(input: &mut DurableDecoder<'_>) -> (result: Result<CommitGroupId, StorageError>) {
        let ghost whole = input.rest();
        match u128::decode(input) {
            Ok(raw) => {
                let value = CommitGroupId(raw);
                proof {
                    lemma_starts_with_value(value, input.rest());
                }
                Ok(value)
            },
            Err(error) => {
                proof {
                    assert forall|value: CommitGroupId, tail: Seq<u8>| #[trigger]
                        (value.wire() + tail) == whole implies false by {
                        lemma_starts_with_value(value.0, tail);
                    }
                }
                Err(error)
            },
        }
    }
}

/// A block device.
#[derive(Clone, Copy, Debug, PartialEq, Eq, PartialOrd, Ord, Hash, Structural)]
pub struct DeviceId(pub u128);

impl DeviceId {
    pub fn from_raw(raw: u128) -> (id: DeviceId)
        ensures
            id == DeviceId(raw),
    {
        DeviceId(raw)
    }

    pub fn raw(self) -> (raw: u128)
        ensures
            raw == self.0,
    {
        self.0
    }
}

impl DurableEncode for DeviceId {
    open spec fn wire(&self) -> Seq<u8> {
        self.0.wire()
    }

    open spec fn durable(&self) -> bool {
        true
    }

    fn encode(&self, out: &mut DurableEncoder) -> (result: Result<(), StorageError>) {
        self.0.encode(out)
    }
}

impl DurableCodec for DeviceId {
    open spec fn same(&self, other: &DeviceId) -> bool {
        *self == *other
    }

    proof fn lemma_unambiguous(a: &DeviceId, b: &DeviceId, a_tail: Seq<u8>, b_tail: Seq<u8>) {
        u128::lemma_unambiguous(&a.0, &b.0, a_tail, b_tail);
        assert(a.same(b));
    }

    fn decode(input: &mut DurableDecoder<'_>) -> (result: Result<DeviceId, StorageError>) {
        let ghost whole = input.rest();
        match u128::decode(input) {
            Ok(raw) => {
                let value = DeviceId(raw);
                proof {
                    lemma_starts_with_value(value, input.rest());
                }
                Ok(value)
            },
            Err(error) => {
                proof {
                    assert forall|value: DeviceId, tail: Seq<u8>| #[trigger]
                        (value.wire() + tail) == whole implies false by {
                        lemma_starts_with_value(value.0, tail);
                    }
                }
                Err(error)
            },
        }
    }
}

/// A reserved extent.
#[derive(Clone, Copy, Debug, PartialEq, Eq, PartialOrd, Ord, Hash, Structural)]
pub struct ExtentId(pub u128);

impl ExtentId {
    pub fn from_raw(raw: u128) -> (id: ExtentId)
        ensures
            id == ExtentId(raw),
    {
        ExtentId(raw)
    }

    pub fn raw(self) -> (raw: u128)
        ensures
            raw == self.0,
    {
        self.0
    }
}

impl DurableEncode for ExtentId {
    open spec fn wire(&self) -> Seq<u8> {
        self.0.wire()
    }

    open spec fn durable(&self) -> bool {
        true
    }

    fn encode(&self, out: &mut DurableEncoder) -> (result: Result<(), StorageError>) {
        self.0.encode(out)
    }
}

impl DurableCodec for ExtentId {
    open spec fn same(&self, other: &ExtentId) -> bool {
        *self == *other
    }

    proof fn lemma_unambiguous(a: &ExtentId, b: &ExtentId, a_tail: Seq<u8>, b_tail: Seq<u8>) {
        u128::lemma_unambiguous(&a.0, &b.0, a_tail, b_tail);
        assert(a.same(b));
    }

    fn decode(input: &mut DurableDecoder<'_>) -> (result: Result<ExtentId, StorageError>) {
        let ghost whole = input.rest();
        match u128::decode(input) {
            Ok(raw) => {
                let value = ExtentId(raw);
                proof {
                    lemma_starts_with_value(value, input.rest());
                }
                Ok(value)
            },
            Err(error) => {
                proof {
                    assert forall|value: ExtentId, tail: Seq<u8>| #[trigger]
                        (value.wire() + tail) == whole implies false by {
                        lemma_starts_with_value(value.0, tail);
                    }
                }
                Err(error)
            },
        }
    }
}

/// A file of a keyspace.
#[derive(Clone, Copy, Debug, PartialEq, Eq, PartialOrd, Ord, Hash, Structural)]
pub struct FileId(pub u128);

impl FileId {
    pub fn from_raw(raw: u128) -> (id: FileId)
        ensures
            id == FileId(raw),
    {
        FileId(raw)
    }

    pub fn raw(self) -> (raw: u128)
        ensures
            raw == self.0,
    {
        self.0
    }
}

impl DurableEncode for FileId {
    open spec fn wire(&self) -> Seq<u8> {
        self.0.wire()
    }

    open spec fn durable(&self) -> bool {
        true
    }

    fn encode(&self, out: &mut DurableEncoder) -> (result: Result<(), StorageError>) {
        self.0.encode(out)
    }
}

impl DurableCodec for FileId {
    open spec fn same(&self, other: &FileId) -> bool {
        *self == *other
    }

    proof fn lemma_unambiguous(a: &FileId, b: &FileId, a_tail: Seq<u8>, b_tail: Seq<u8>) {
        u128::lemma_unambiguous(&a.0, &b.0, a_tail, b_tail);
        assert(a.same(b));
    }

    fn decode(input: &mut DurableDecoder<'_>) -> (result: Result<FileId, StorageError>) {
        let ghost whole = input.rest();
        match u128::decode(input) {
            Ok(raw) => {
                let value = FileId(raw);
                proof {
                    lemma_starts_with_value(value, input.rest());
                }
                Ok(value)
            },
            Err(error) => {
                proof {
                    assert forall|value: FileId, tail: Seq<u8>| #[trigger]
                        (value.wire() + tail) == whole implies false by {
                        lemma_starts_with_value(value.0, tail);
                    }
                }
                Err(error)
            },
        }
    }
}

/// A permission to write one segment.
#[derive(Clone, Copy, Debug, PartialEq, Eq, PartialOrd, Ord, Hash, Structural)]
pub struct GrantId(pub u128);

impl GrantId {
    pub fn from_raw(raw: u128) -> (id: GrantId)
        ensures
            id == GrantId(raw),
    {
        GrantId(raw)
    }

    pub fn raw(self) -> (raw: u128)
        ensures
            raw == self.0,
    {
        self.0
    }
}

impl DurableEncode for GrantId {
    open spec fn wire(&self) -> Seq<u8> {
        self.0.wire()
    }

    open spec fn durable(&self) -> bool {
        true
    }

    fn encode(&self, out: &mut DurableEncoder) -> (result: Result<(), StorageError>) {
        self.0.encode(out)
    }
}

impl DurableCodec for GrantId {
    open spec fn same(&self, other: &GrantId) -> bool {
        *self == *other
    }

    proof fn lemma_unambiguous(a: &GrantId, b: &GrantId, a_tail: Seq<u8>, b_tail: Seq<u8>) {
        u128::lemma_unambiguous(&a.0, &b.0, a_tail, b_tail);
        assert(a.same(b));
    }

    fn decode(input: &mut DurableDecoder<'_>) -> (result: Result<GrantId, StorageError>) {
        let ghost whole = input.rest();
        match u128::decode(input) {
            Ok(raw) => {
                let value = GrantId(raw);
                proof {
                    lemma_starts_with_value(value, input.rest());
                }
                Ok(value)
            },
            Err(error) => {
                proof {
                    assert forall|value: GrantId, tail: Seq<u8>| #[trigger]
                        (value.wire() + tail) == whole implies false by {
                        lemma_starts_with_value(value.0, tail);
                    }
                }
                Err(error)
            },
        }
    }
}

/// A number that makes a grant unique.
#[derive(Clone, Copy, Debug, PartialEq, Eq, PartialOrd, Ord, Hash, Structural)]
pub struct GrantNonce(pub u128);

impl GrantNonce {
    pub fn from_raw(raw: u128) -> (id: GrantNonce)
        ensures
            id == GrantNonce(raw),
    {
        GrantNonce(raw)
    }

    pub fn raw(self) -> (raw: u128)
        ensures
            raw == self.0,
    {
        self.0
    }
}

impl DurableEncode for GrantNonce {
    open spec fn wire(&self) -> Seq<u8> {
        self.0.wire()
    }

    open spec fn durable(&self) -> bool {
        true
    }

    fn encode(&self, out: &mut DurableEncoder) -> (result: Result<(), StorageError>) {
        self.0.encode(out)
    }
}

impl DurableCodec for GrantNonce {
    open spec fn same(&self, other: &GrantNonce) -> bool {
        *self == *other
    }

    proof fn lemma_unambiguous(a: &GrantNonce, b: &GrantNonce, a_tail: Seq<u8>, b_tail: Seq<u8>) {
        u128::lemma_unambiguous(&a.0, &b.0, a_tail, b_tail);
        assert(a.same(b));
    }

    fn decode(input: &mut DurableDecoder<'_>) -> (result: Result<GrantNonce, StorageError>) {
        let ghost whole = input.rest();
        match u128::decode(input) {
            Ok(raw) => {
                let value = GrantNonce(raw);
                proof {
                    lemma_starts_with_value(value, input.rest());
                }
                Ok(value)
            },
            Err(error) => {
                proof {
                    assert forall|value: GrantNonce, tail: Seq<u8>| #[trigger]
                        (value.wire() + tail) == whole implies false by {
                        lemma_starts_with_value(value.0, tail);
                    }
                }
                Err(error)
            },
        }
    }
}

/// One immutable version of a keyspace catalog shard.
#[derive(Clone, Copy, Debug, PartialEq, Eq, PartialOrd, Ord, Hash, Structural)]
pub struct KeyspaceCatalogShardId(pub u128);

impl KeyspaceCatalogShardId {
    pub fn from_raw(raw: u128) -> (id: KeyspaceCatalogShardId)
        ensures
            id == KeyspaceCatalogShardId(raw),
    {
        KeyspaceCatalogShardId(raw)
    }

    pub fn raw(self) -> (raw: u128)
        ensures
            raw == self.0,
    {
        self.0
    }
}

impl DurableEncode for KeyspaceCatalogShardId {
    open spec fn wire(&self) -> Seq<u8> {
        self.0.wire()
    }

    open spec fn durable(&self) -> bool {
        true
    }

    fn encode(&self, out: &mut DurableEncoder) -> (result: Result<(), StorageError>) {
        self.0.encode(out)
    }
}

impl DurableCodec for KeyspaceCatalogShardId {
    open spec fn same(&self, other: &KeyspaceCatalogShardId) -> bool {
        *self == *other
    }

    proof fn lemma_unambiguous(a: &KeyspaceCatalogShardId, b: &KeyspaceCatalogShardId, a_tail: Seq<u8>, b_tail: Seq<u8>) {
        u128::lemma_unambiguous(&a.0, &b.0, a_tail, b_tail);
        assert(a.same(b));
    }

    fn decode(input: &mut DurableDecoder<'_>) -> (result: Result<KeyspaceCatalogShardId, StorageError>) {
        let ghost whole = input.rest();
        match u128::decode(input) {
            Ok(raw) => {
                let value = KeyspaceCatalogShardId(raw);
                proof {
                    lemma_starts_with_value(value, input.rest());
                }
                Ok(value)
            },
            Err(error) => {
                proof {
                    assert forall|value: KeyspaceCatalogShardId, tail: Seq<u8>| #[trigger]
                        (value.wire() + tail) == whole implies false by {
                        lemma_starts_with_value(value.0, tail);
                    }
                }
                Err(error)
            },
        }
    }
}

/// A keyspace of files.
#[derive(Clone, Copy, Debug, PartialEq, Eq, PartialOrd, Ord, Hash, Structural)]
pub struct KeyspaceId(pub u128);

impl KeyspaceId {
    pub fn from_raw(raw: u128) -> (id: KeyspaceId)
        ensures
            id == KeyspaceId(raw),
    {
        KeyspaceId(raw)
    }

    pub fn raw(self) -> (raw: u128)
        ensures
            raw == self.0,
    {
        self.0
    }
}

impl DurableEncode for KeyspaceId {
    open spec fn wire(&self) -> Seq<u8> {
        self.0.wire()
    }

    open spec fn durable(&self) -> bool {
        true
    }

    fn encode(&self, out: &mut DurableEncoder) -> (result: Result<(), StorageError>) {
        self.0.encode(out)
    }
}

impl DurableCodec for KeyspaceId {
    open spec fn same(&self, other: &KeyspaceId) -> bool {
        *self == *other
    }

    proof fn lemma_unambiguous(a: &KeyspaceId, b: &KeyspaceId, a_tail: Seq<u8>, b_tail: Seq<u8>) {
        u128::lemma_unambiguous(&a.0, &b.0, a_tail, b_tail);
        assert(a.same(b));
    }

    fn decode(input: &mut DurableDecoder<'_>) -> (result: Result<KeyspaceId, StorageError>) {
        let ghost whole = input.rest();
        match u128::decode(input) {
            Ok(raw) => {
                let value = KeyspaceId(raw);
                proof {
                    lemma_starts_with_value(value, input.rest());
                }
                Ok(value)
            },
            Err(error) => {
                proof {
                    assert forall|value: KeyspaceId, tail: Seq<u8>| #[trigger]
                        (value.wire() + tail) == whole implies false by {
                        lemma_starts_with_value(value.0, tail);
                    }
                }
                Err(error)
            },
        }
    }
}

/// One immutable version of a whole keyspace.
#[derive(Clone, Copy, Debug, PartialEq, Eq, PartialOrd, Ord, Hash, Structural)]
pub struct KeyspaceRootId(pub u128);

impl KeyspaceRootId {
    pub fn from_raw(raw: u128) -> (id: KeyspaceRootId)
        ensures
            id == KeyspaceRootId(raw),
    {
        KeyspaceRootId(raw)
    }

    pub fn raw(self) -> (raw: u128)
        ensures
            raw == self.0,
    {
        self.0
    }
}

impl DurableEncode for KeyspaceRootId {
    open spec fn wire(&self) -> Seq<u8> {
        self.0.wire()
    }

    open spec fn durable(&self) -> bool {
        true
    }

    fn encode(&self, out: &mut DurableEncoder) -> (result: Result<(), StorageError>) {
        self.0.encode(out)
    }
}

impl DurableCodec for KeyspaceRootId {
    open spec fn same(&self, other: &KeyspaceRootId) -> bool {
        *self == *other
    }

    proof fn lemma_unambiguous(a: &KeyspaceRootId, b: &KeyspaceRootId, a_tail: Seq<u8>, b_tail: Seq<u8>) {
        u128::lemma_unambiguous(&a.0, &b.0, a_tail, b_tail);
        assert(a.same(b));
    }

    fn decode(input: &mut DurableDecoder<'_>) -> (result: Result<KeyspaceRootId, StorageError>) {
        let ghost whole = input.rest();
        match u128::decode(input) {
            Ok(raw) => {
                let value = KeyspaceRootId(raw);
                proof {
                    lemma_starts_with_value(value, input.rest());
                }
                Ok(value)
            },
            Err(error) => {
                proof {
                    assert forall|value: KeyspaceRootId, tail: Seq<u8>| #[trigger]
                        (value.wire() + tail) == whole implies false by {
                        lemma_starts_with_value(value.0, tail);
                    }
                }
                Err(error)
            },
        }
    }
}

/// An immutable node of a metadata tree.
#[derive(Clone, Copy, Debug, PartialEq, Eq, PartialOrd, Ord, Hash, Structural)]
pub struct MetadataNodeId(pub u128);

impl MetadataNodeId {
    pub fn from_raw(raw: u128) -> (id: MetadataNodeId)
        ensures
            id == MetadataNodeId(raw),
    {
        MetadataNodeId(raw)
    }

    pub fn raw(self) -> (raw: u128)
        ensures
            raw == self.0,
    {
        self.0
    }
}

impl DurableEncode for MetadataNodeId {
    open spec fn wire(&self) -> Seq<u8> {
        self.0.wire()
    }

    open spec fn durable(&self) -> bool {
        true
    }

    fn encode(&self, out: &mut DurableEncoder) -> (result: Result<(), StorageError>) {
        self.0.encode(out)
    }
}

impl DurableCodec for MetadataNodeId {
    open spec fn same(&self, other: &MetadataNodeId) -> bool {
        *self == *other
    }

    proof fn lemma_unambiguous(a: &MetadataNodeId, b: &MetadataNodeId, a_tail: Seq<u8>, b_tail: Seq<u8>) {
        u128::lemma_unambiguous(&a.0, &b.0, a_tail, b_tail);
        assert(a.same(b));
    }

    fn decode(input: &mut DurableDecoder<'_>) -> (result: Result<MetadataNodeId, StorageError>) {
        let ghost whole = input.rest();
        match u128::decode(input) {
            Ok(raw) => {
                let value = MetadataNodeId(raw);
                proof {
                    lemma_starts_with_value(value, input.rest());
                }
                Ok(value)
            },
            Err(error) => {
                proof {
                    assert forall|value: MetadataNodeId, tail: Seq<u8>| #[trigger]
                        (value.wire() + tail) == whole implies false by {
                        lemma_starts_with_value(value.0, tail);
                    }
                }
                Err(error)
            },
        }
    }
}

/// Who asks.
#[derive(Clone, Copy, Debug, PartialEq, Eq, PartialOrd, Ord, Hash, Structural)]
pub struct PrincipalId(pub u128);

impl PrincipalId {
    pub fn from_raw(raw: u128) -> (id: PrincipalId)
        ensures
            id == PrincipalId(raw),
    {
        PrincipalId(raw)
    }

    pub fn raw(self) -> (raw: u128)
        ensures
            raw == self.0,
    {
        self.0
    }
}

impl DurableEncode for PrincipalId {
    open spec fn wire(&self) -> Seq<u8> {
        self.0.wire()
    }

    open spec fn durable(&self) -> bool {
        true
    }

    fn encode(&self, out: &mut DurableEncoder) -> (result: Result<(), StorageError>) {
        self.0.encode(out)
    }
}

impl DurableCodec for PrincipalId {
    open spec fn same(&self, other: &PrincipalId) -> bool {
        *self == *other
    }

    proof fn lemma_unambiguous(a: &PrincipalId, b: &PrincipalId, a_tail: Seq<u8>, b_tail: Seq<u8>) {
        u128::lemma_unambiguous(&a.0, &b.0, a_tail, b_tail);
        assert(a.same(b));
    }

    fn decode(input: &mut DurableDecoder<'_>) -> (result: Result<PrincipalId, StorageError>) {
        let ghost whole = input.rest();
        match u128::decode(input) {
            Ok(raw) => {
                let value = PrincipalId(raw);
                proof {
                    lemma_starts_with_value(value, input.rest());
                }
                Ok(value)
            },
            Err(error) => {
                proof {
                    assert forall|value: PrincipalId, tail: Seq<u8>| #[trigger]
                        (value.wire() + tail) == whole implies false by {
                        lemma_starts_with_value(value.0, tail);
                    }
                }
                Err(error)
            },
        }
    }
}

/// One request of a client.
#[derive(Clone, Copy, Debug, PartialEq, Eq, PartialOrd, Ord, Hash, Structural)]
pub struct RequestId(pub u128);

impl RequestId {
    pub fn from_raw(raw: u128) -> (id: RequestId)
        ensures
            id == RequestId(raw),
    {
        RequestId(raw)
    }

    pub fn raw(self) -> (raw: u128)
        ensures
            raw == self.0,
    {
        self.0
    }
}

impl DurableEncode for RequestId {
    open spec fn wire(&self) -> Seq<u8> {
        self.0.wire()
    }

    open spec fn durable(&self) -> bool {
        true
    }

    fn encode(&self, out: &mut DurableEncoder) -> (result: Result<(), StorageError>) {
        self.0.encode(out)
    }
}

impl DurableCodec for RequestId {
    open spec fn same(&self, other: &RequestId) -> bool {
        *self == *other
    }

    proof fn lemma_unambiguous(a: &RequestId, b: &RequestId, a_tail: Seq<u8>, b_tail: Seq<u8>) {
        u128::lemma_unambiguous(&a.0, &b.0, a_tail, b_tail);
        assert(a.same(b));
    }

    fn decode(input: &mut DurableDecoder<'_>) -> (result: Result<RequestId, StorageError>) {
        let ghost whole = input.rest();
        match u128::decode(input) {
            Ok(raw) => {
                let value = RequestId(raw);
                proof {
                    lemma_starts_with_value(value, input.rest());
                }
                Ok(value)
            },
            Err(error) => {
                proof {
                    assert forall|value: RequestId, tail: Seq<u8>| #[trigger]
                        (value.wire() + tail) == whole implies false by {
                        lemma_starts_with_value(value.0, tail);
                    }
                }
                Err(error)
            },
        }
    }
}

/// An immutable segment of payload bytes.
#[derive(Clone, Copy, Debug, PartialEq, Eq, PartialOrd, Ord, Hash, Structural)]
pub struct SegmentId(pub u128);

impl SegmentId {
    pub fn from_raw(raw: u128) -> (id: SegmentId)
        ensures
            id == SegmentId(raw),
    {
        SegmentId(raw)
    }

    pub fn raw(self) -> (raw: u128)
        ensures
            raw == self.0,
    {
        self.0
    }
}

impl DurableEncode for SegmentId {
    open spec fn wire(&self) -> Seq<u8> {
        self.0.wire()
    }

    open spec fn durable(&self) -> bool {
        true
    }

    fn encode(&self, out: &mut DurableEncoder) -> (result: Result<(), StorageError>) {
        self.0.encode(out)
    }
}

impl DurableCodec for SegmentId {
    open spec fn same(&self, other: &SegmentId) -> bool {
        *self == *other
    }

    proof fn lemma_unambiguous(a: &SegmentId, b: &SegmentId, a_tail: Seq<u8>, b_tail: Seq<u8>) {
        u128::lemma_unambiguous(&a.0, &b.0, a_tail, b_tail);
        assert(a.same(b));
    }

    fn decode(input: &mut DurableDecoder<'_>) -> (result: Result<SegmentId, StorageError>) {
        let ghost whole = input.rest();
        match u128::decode(input) {
            Ok(raw) => {
                let value = SegmentId(raw);
                proof {
                    lemma_starts_with_value(value, input.rest());
                }
                Ok(value)
            },
            Err(error) => {
                proof {
                    assert forall|value: SegmentId, tail: Seq<u8>| #[trigger]
                        (value.wire() + tail) == whole implies false by {
                        lemma_starts_with_value(value.0, tail);
                    }
                }
                Err(error)
            },
        }
    }
}

/// A storage node.
#[derive(Clone, Copy, Debug, PartialEq, Eq, PartialOrd, Ord, Hash, Structural)]
pub struct StorageNodeId(pub u128);

impl StorageNodeId {
    pub fn from_raw(raw: u128) -> (id: StorageNodeId)
        ensures
            id == StorageNodeId(raw),
    {
        StorageNodeId(raw)
    }

    pub fn raw(self) -> (raw: u128)
        ensures
            raw == self.0,
    {
        self.0
    }
}

impl DurableEncode for StorageNodeId {
    open spec fn wire(&self) -> Seq<u8> {
        self.0.wire()
    }

    open spec fn durable(&self) -> bool {
        true
    }

    fn encode(&self, out: &mut DurableEncoder) -> (result: Result<(), StorageError>) {
        self.0.encode(out)
    }
}

impl DurableCodec for StorageNodeId {
    open spec fn same(&self, other: &StorageNodeId) -> bool {
        *self == *other
    }

    proof fn lemma_unambiguous(a: &StorageNodeId, b: &StorageNodeId, a_tail: Seq<u8>, b_tail: Seq<u8>) {
        u128::lemma_unambiguous(&a.0, &b.0, a_tail, b_tail);
        assert(a.same(b));
    }

    fn decode(input: &mut DurableDecoder<'_>) -> (result: Result<StorageNodeId, StorageError>) {
        let ghost whole = input.rest();
        match u128::decode(input) {
            Ok(raw) => {
                let value = StorageNodeId(raw);
                proof {
                    lemma_starts_with_value(value, input.rest());
                }
                Ok(value)
            },
            Err(error) => {
                proof {
                    assert forall|value: StorageNodeId, tail: Seq<u8>| #[trigger]
                        (value.wire() + tail) == whole implies false by {
                        lemma_starts_with_value(value.0, tail);
                    }
                }
                Err(error)
            },
        }
    }
}

/// The key a storage node signs with.
#[derive(Clone, Copy, Debug, PartialEq, Eq, PartialOrd, Ord, Hash, Structural)]
pub struct StorageNodeKeyId(pub u128);

impl StorageNodeKeyId {
    pub fn from_raw(raw: u128) -> (id: StorageNodeKeyId)
        ensures
            id == StorageNodeKeyId(raw),
    {
        StorageNodeKeyId(raw)
    }

    pub fn raw(self) -> (raw: u128)
        ensures
            raw == self.0,
    {
        self.0
    }
}

impl DurableEncode for StorageNodeKeyId {
    open spec fn wire(&self) -> Seq<u8> {
        self.0.wire()
    }

    open spec fn durable(&self) -> bool {
        true
    }

    fn encode(&self, out: &mut DurableEncoder) -> (result: Result<(), StorageError>) {
        self.0.encode(out)
    }
}

impl DurableCodec for StorageNodeKeyId {
    open spec fn same(&self, other: &StorageNodeKeyId) -> bool {
        *self == *other
    }

    proof fn lemma_unambiguous(a: &StorageNodeKeyId, b: &StorageNodeKeyId, a_tail: Seq<u8>, b_tail: Seq<u8>) {
        u128::lemma_unambiguous(&a.0, &b.0, a_tail, b_tail);
        assert(a.same(b));
    }

    fn decode(input: &mut DurableDecoder<'_>) -> (result: Result<StorageNodeKeyId, StorageError>) {
        let ghost whole = input.rest();
        match u128::decode(input) {
            Ok(raw) => {
                let value = StorageNodeKeyId(raw);
                proof {
                    lemma_starts_with_value(value, input.rest());
                }
                Ok(value)
            },
            Err(error) => {
                proof {
                    assert forall|value: StorageNodeKeyId, tail: Seq<u8>| #[trigger]
                        (value.wire() + tail) == whole implies false by {
                        lemma_starts_with_value(value.0, tail);
                    }
                }
                Err(error)
            },
        }
    }
}

/// A tenant.
#[derive(Clone, Copy, Debug, PartialEq, Eq, PartialOrd, Ord, Hash, Structural)]
pub struct TenantId(pub u128);

impl TenantId {
    pub fn from_raw(raw: u128) -> (id: TenantId)
        ensures
            id == TenantId(raw),
    {
        TenantId(raw)
    }

    pub fn raw(self) -> (raw: u128)
        ensures
            raw == self.0,
    {
        self.0
    }
}

impl DurableEncode for TenantId {
    open spec fn wire(&self) -> Seq<u8> {
        self.0.wire()
    }

    open spec fn durable(&self) -> bool {
        true
    }

    fn encode(&self, out: &mut DurableEncoder) -> (result: Result<(), StorageError>) {
        self.0.encode(out)
    }
}

impl DurableCodec for TenantId {
    open spec fn same(&self, other: &TenantId) -> bool {
        *self == *other
    }

    proof fn lemma_unambiguous(a: &TenantId, b: &TenantId, a_tail: Seq<u8>, b_tail: Seq<u8>) {
        u128::lemma_unambiguous(&a.0, &b.0, a_tail, b_tail);
        assert(a.same(b));
    }

    fn decode(input: &mut DurableDecoder<'_>) -> (result: Result<TenantId, StorageError>) {
        let ghost whole = input.rest();
        match u128::decode(input) {
            Ok(raw) => {
                let value = TenantId(raw);
                proof {
                    lemma_starts_with_value(value, input.rest());
                }
                Ok(value)
            },
            Err(error) => {
                proof {
                    assert forall|value: TenantId, tail: Seq<u8>| #[trigger]
                        (value.wire() + tail) == whole implies false by {
                        lemma_starts_with_value(value.0, tail);
                    }
                }
                Err(error)
            },
        }
    }
}

/// An announced write.
#[derive(Clone, Copy, Debug, PartialEq, Eq, PartialOrd, Ord, Hash, Structural)]
pub struct WriteIntentId(pub u128);

impl WriteIntentId {
    pub fn from_raw(raw: u128) -> (id: WriteIntentId)
        ensures
            id == WriteIntentId(raw),
    {
        WriteIntentId(raw)
    }

    pub fn raw(self) -> (raw: u128)
        ensures
            raw == self.0,
    {
        self.0
    }
}

impl DurableEncode for WriteIntentId {
    open spec fn wire(&self) -> Seq<u8> {
        self.0.wire()
    }

    open spec fn durable(&self) -> bool {
        true
    }

    fn encode(&self, out: &mut DurableEncoder) -> (result: Result<(), StorageError>) {
        self.0.encode(out)
    }
}

impl DurableCodec for WriteIntentId {
    open spec fn same(&self, other: &WriteIntentId) -> bool {
        *self == *other
    }

    proof fn lemma_unambiguous(a: &WriteIntentId, b: &WriteIntentId, a_tail: Seq<u8>, b_tail: Seq<u8>) {
        u128::lemma_unambiguous(&a.0, &b.0, a_tail, b_tail);
        assert(a.same(b));
    }

    fn decode(input: &mut DurableDecoder<'_>) -> (result: Result<WriteIntentId, StorageError>) {
        let ghost whole = input.rest();
        match u128::decode(input) {
            Ok(raw) => {
                let value = WriteIntentId(raw);
                proof {
                    lemma_starts_with_value(value, input.rest());
                }
                Ok(value)
            },
            Err(error) => {
                proof {
                    assert forall|value: WriteIntentId, tail: Seq<u8>| #[trigger]
                        (value.wire() + tail) == whole implies false by {
                        lemma_starts_with_value(value.0, tail);
                    }
                }
                Err(error)
            },
        }
    }
}

/// A number of blocks.
#[derive(Clone, Copy, Debug, PartialEq, Eq, PartialOrd, Ord, Hash, Structural)]
pub struct BlockCount(pub u64);

impl BlockCount {
    pub fn from_raw(raw: u64) -> (id: BlockCount)
        ensures
            id == BlockCount(raw),
    {
        BlockCount(raw)
    }

    pub fn raw(self) -> (raw: u64)
        ensures
            raw == self.0,
    {
        self.0
    }
}

impl DurableEncode for BlockCount {
    open spec fn wire(&self) -> Seq<u8> {
        self.0.wire()
    }

    open spec fn durable(&self) -> bool {
        true
    }

    fn encode(&self, out: &mut DurableEncoder) -> (result: Result<(), StorageError>) {
        self.0.encode(out)
    }
}

impl DurableCodec for BlockCount {
    open spec fn same(&self, other: &BlockCount) -> bool {
        *self == *other
    }

    proof fn lemma_unambiguous(a: &BlockCount, b: &BlockCount, a_tail: Seq<u8>, b_tail: Seq<u8>) {
        u64::lemma_unambiguous(&a.0, &b.0, a_tail, b_tail);
        assert(a.same(b));
    }

    fn decode(input: &mut DurableDecoder<'_>) -> (result: Result<BlockCount, StorageError>) {
        let ghost whole = input.rest();
        match u64::decode(input) {
            Ok(raw) => {
                let value = BlockCount(raw);
                proof {
                    lemma_starts_with_value(value, input.rest());
                }
                Ok(value)
            },
            Err(error) => {
                proof {
                    assert forall|value: BlockCount, tail: Seq<u8>| #[trigger]
                        (value.wire() + tail) == whole implies false by {
                        lemma_starts_with_value(value.0, tail);
                    }
                }
                Err(error)
            },
        }
    }
}

/// The position of a block.
#[derive(Clone, Copy, Debug, PartialEq, Eq, PartialOrd, Ord, Hash, Structural)]
pub struct BlockIndex(pub u64);

impl BlockIndex {
    pub fn from_raw(raw: u64) -> (id: BlockIndex)
        ensures
            id == BlockIndex(raw),
    {
        BlockIndex(raw)
    }

    pub fn raw(self) -> (raw: u64)
        ensures
            raw == self.0,
    {
        self.0
    }
}

impl DurableEncode for BlockIndex {
    open spec fn wire(&self) -> Seq<u8> {
        self.0.wire()
    }

    open spec fn durable(&self) -> bool {
        true
    }

    fn encode(&self, out: &mut DurableEncoder) -> (result: Result<(), StorageError>) {
        self.0.encode(out)
    }
}

impl DurableCodec for BlockIndex {
    open spec fn same(&self, other: &BlockIndex) -> bool {
        *self == *other
    }

    proof fn lemma_unambiguous(a: &BlockIndex, b: &BlockIndex, a_tail: Seq<u8>, b_tail: Seq<u8>) {
        u64::lemma_unambiguous(&a.0, &b.0, a_tail, b_tail);
        assert(a.same(b));
    }

    fn decode(input: &mut DurableDecoder<'_>) -> (result: Result<BlockIndex, StorageError>) {
        let ghost whole = input.rest();
        match u64::decode(input) {
            Ok(raw) => {
                let value = BlockIndex(raw);
                proof {
                    lemma_starts_with_value(value, input.rest());
                }
                Ok(value)
            },
            Err(error) => {
                proof {
                    assert forall|value: BlockIndex, tail: Seq<u8>| #[trigger]
                        (value.wire() + tail) == whole implies false by {
                        lemma_starts_with_value(value.0, tail);
                    }
                }
                Err(error)
            },
        }
    }
}

/// The life of a client that a request belongs to.
#[derive(Clone, Copy, Debug, PartialEq, Eq, PartialOrd, Ord, Hash, Structural)]
pub struct ClientEpoch(pub u64);

impl ClientEpoch {
    pub fn from_raw(raw: u64) -> (id: ClientEpoch)
        ensures
            id == ClientEpoch(raw),
    {
        ClientEpoch(raw)
    }

    pub fn raw(self) -> (raw: u64)
        ensures
            raw == self.0,
    {
        self.0
    }
}

impl DurableEncode for ClientEpoch {
    open spec fn wire(&self) -> Seq<u8> {
        self.0.wire()
    }

    open spec fn durable(&self) -> bool {
        true
    }

    fn encode(&self, out: &mut DurableEncoder) -> (result: Result<(), StorageError>) {
        self.0.encode(out)
    }
}

impl DurableCodec for ClientEpoch {
    open spec fn same(&self, other: &ClientEpoch) -> bool {
        *self == *other
    }

    proof fn lemma_unambiguous(a: &ClientEpoch, b: &ClientEpoch, a_tail: Seq<u8>, b_tail: Seq<u8>) {
        u64::lemma_unambiguous(&a.0, &b.0, a_tail, b_tail);
        assert(a.same(b));
    }

    fn decode(input: &mut DurableDecoder<'_>) -> (result: Result<ClientEpoch, StorageError>) {
        let ghost whole = input.rest();
        match u64::decode(input) {
            Ok(raw) => {
                let value = ClientEpoch(raw);
                proof {
                    lemma_starts_with_value(value, input.rest());
                }
                Ok(value)
            },
            Err(error) => {
                proof {
                    assert forall|value: ClientEpoch, tail: Seq<u8>| #[trigger]
                        (value.wire() + tail) == whole implies false by {
                        lemma_starts_with_value(value.0, tail);
                    }
                }
                Err(error)
            },
        }
    }
}

/// A position in the total order of commits.
#[derive(Clone, Copy, Debug, PartialEq, Eq, PartialOrd, Ord, Hash, Structural)]
pub struct CommitSeq(pub u64);

impl CommitSeq {
    pub fn from_raw(raw: u64) -> (id: CommitSeq)
        ensures
            id == CommitSeq(raw),
    {
        CommitSeq(raw)
    }

    pub fn raw(self) -> (raw: u64)
        ensures
            raw == self.0,
    {
        self.0
    }
}

impl DurableEncode for CommitSeq {
    open spec fn wire(&self) -> Seq<u8> {
        self.0.wire()
    }

    open spec fn durable(&self) -> bool {
        true
    }

    fn encode(&self, out: &mut DurableEncoder) -> (result: Result<(), StorageError>) {
        self.0.encode(out)
    }
}

impl DurableCodec for CommitSeq {
    open spec fn same(&self, other: &CommitSeq) -> bool {
        *self == *other
    }

    proof fn lemma_unambiguous(a: &CommitSeq, b: &CommitSeq, a_tail: Seq<u8>, b_tail: Seq<u8>) {
        u64::lemma_unambiguous(&a.0, &b.0, a_tail, b_tail);
        assert(a.same(b));
    }

    fn decode(input: &mut DurableDecoder<'_>) -> (result: Result<CommitSeq, StorageError>) {
        let ghost whole = input.rest();
        match u64::decode(input) {
            Ok(raw) => {
                let value = CommitSeq(raw);
                proof {
                    lemma_starts_with_value(value, input.rest());
                }
                Ok(value)
            },
            Err(error) => {
                proof {
                    assert forall|value: CommitSeq, tail: Seq<u8>| #[trigger]
                        (value.wire() + tail) == whole implies false by {
                        lemma_starts_with_value(value.0, tail);
                    }
                }
                Err(error)
            },
        }
    }
}

/// How often a device was replaced.
#[derive(Clone, Copy, Debug, PartialEq, Eq, PartialOrd, Ord, Hash, Structural)]
pub struct DeviceGeneration(pub u64);

impl DeviceGeneration {
    pub fn from_raw(raw: u64) -> (id: DeviceGeneration)
        ensures
            id == DeviceGeneration(raw),
    {
        DeviceGeneration(raw)
    }

    pub fn raw(self) -> (raw: u64)
        ensures
            raw == self.0,
    {
        self.0
    }
}

impl DurableEncode for DeviceGeneration {
    open spec fn wire(&self) -> Seq<u8> {
        self.0.wire()
    }

    open spec fn durable(&self) -> bool {
        true
    }

    fn encode(&self, out: &mut DurableEncoder) -> (result: Result<(), StorageError>) {
        self.0.encode(out)
    }
}

impl DurableCodec for DeviceGeneration {
    open spec fn same(&self, other: &DeviceGeneration) -> bool {
        *self == *other
    }

    proof fn lemma_unambiguous(a: &DeviceGeneration, b: &DeviceGeneration, a_tail: Seq<u8>, b_tail: Seq<u8>) {
        u64::lemma_unambiguous(&a.0, &b.0, a_tail, b_tail);
        assert(a.same(b));
    }

    fn decode(input: &mut DurableDecoder<'_>) -> (result: Result<DeviceGeneration, StorageError>) {
        let ghost whole = input.rest();
        match u64::decode(input) {
            Ok(raw) => {
                let value = DeviceGeneration(raw);
                proof {
                    lemma_starts_with_value(value, input.rest());
                }
                Ok(value)
            },
            Err(error) => {
                proof {
                    assert forall|value: DeviceGeneration, tail: Seq<u8>| #[trigger]
                        (value.wire() + tail) == whole implies false by {
                        lemma_starts_with_value(value.0, tail);
                    }
                }
                Err(error)
            },
        }
    }
}

/// How often a file was changed.
#[derive(Clone, Copy, Debug, PartialEq, Eq, PartialOrd, Ord, Hash, Structural)]
pub struct FileVersion(pub u64);

impl FileVersion {
    pub fn from_raw(raw: u64) -> (id: FileVersion)
        ensures
            id == FileVersion(raw),
    {
        FileVersion(raw)
    }

    pub fn raw(self) -> (raw: u64)
        ensures
            raw == self.0,
    {
        self.0
    }
}

impl DurableEncode for FileVersion {
    open spec fn wire(&self) -> Seq<u8> {
        self.0.wire()
    }

    open spec fn durable(&self) -> bool {
        true
    }

    fn encode(&self, out: &mut DurableEncoder) -> (result: Result<(), StorageError>) {
        self.0.encode(out)
    }
}

impl DurableCodec for FileVersion {
    open spec fn same(&self, other: &FileVersion) -> bool {
        *self == *other
    }

    proof fn lemma_unambiguous(a: &FileVersion, b: &FileVersion, a_tail: Seq<u8>, b_tail: Seq<u8>) {
        u64::lemma_unambiguous(&a.0, &b.0, a_tail, b_tail);
        assert(a.same(b));
    }

    fn decode(input: &mut DurableDecoder<'_>) -> (result: Result<FileVersion, StorageError>) {
        let ghost whole = input.rest();
        match u64::decode(input) {
            Ok(raw) => {
                let value = FileVersion(raw);
                proof {
                    lemma_starts_with_value(value, input.rest());
                }
                Ok(value)
            },
            Err(error) => {
                proof {
                    assert forall|value: FileVersion, tail: Seq<u8>| #[trigger]
                        (value.wire() + tail) == whole implies false by {
                        lemma_starts_with_value(value.0, tail);
                    }
                }
                Err(error)
            },
        }
    }
}

/// The epoch a grant was issued in.
#[derive(Clone, Copy, Debug, PartialEq, Eq, PartialOrd, Ord, Hash, Structural)]
pub struct GrantEpoch(pub u64);

impl GrantEpoch {
    pub fn from_raw(raw: u64) -> (id: GrantEpoch)
        ensures
            id == GrantEpoch(raw),
    {
        GrantEpoch(raw)
    }

    pub fn raw(self) -> (raw: u64)
        ensures
            raw == self.0,
    {
        self.0
    }
}

impl DurableEncode for GrantEpoch {
    open spec fn wire(&self) -> Seq<u8> {
        self.0.wire()
    }

    open spec fn durable(&self) -> bool {
        true
    }

    fn encode(&self, out: &mut DurableEncoder) -> (result: Result<(), StorageError>) {
        self.0.encode(out)
    }
}

impl DurableCodec for GrantEpoch {
    open spec fn same(&self, other: &GrantEpoch) -> bool {
        *self == *other
    }

    proof fn lemma_unambiguous(a: &GrantEpoch, b: &GrantEpoch, a_tail: Seq<u8>, b_tail: Seq<u8>) {
        u64::lemma_unambiguous(&a.0, &b.0, a_tail, b_tail);
        assert(a.same(b));
    }

    fn decode(input: &mut DurableDecoder<'_>) -> (result: Result<GrantEpoch, StorageError>) {
        let ghost whole = input.rest();
        match u64::decode(input) {
            Ok(raw) => {
                let value = GrantEpoch(raw);
                proof {
                    lemma_starts_with_value(value, input.rest());
                }
                Ok(value)
            },
            Err(error) => {
                proof {
                    assert forall|value: GrantEpoch, tail: Seq<u8>| #[trigger]
                        (value.wire() + tail) == whole implies false by {
                        lemma_starts_with_value(value.0, tail);
                    }
                }
                Err(error)
            },
        }
    }
}

/// How often a keyspace was replaced.
#[derive(Clone, Copy, Debug, PartialEq, Eq, PartialOrd, Ord, Hash, Structural)]
pub struct KeyspaceGeneration(pub u64);

impl KeyspaceGeneration {
    pub fn from_raw(raw: u64) -> (id: KeyspaceGeneration)
        ensures
            id == KeyspaceGeneration(raw),
    {
        KeyspaceGeneration(raw)
    }

    pub fn raw(self) -> (raw: u64)
        ensures
            raw == self.0,
    {
        self.0
    }
}

impl DurableEncode for KeyspaceGeneration {
    open spec fn wire(&self) -> Seq<u8> {
        self.0.wire()
    }

    open spec fn durable(&self) -> bool {
        true
    }

    fn encode(&self, out: &mut DurableEncoder) -> (result: Result<(), StorageError>) {
        self.0.encode(out)
    }
}

impl DurableCodec for KeyspaceGeneration {
    open spec fn same(&self, other: &KeyspaceGeneration) -> bool {
        *self == *other
    }

    proof fn lemma_unambiguous(a: &KeyspaceGeneration, b: &KeyspaceGeneration, a_tail: Seq<u8>, b_tail: Seq<u8>) {
        u64::lemma_unambiguous(&a.0, &b.0, a_tail, b_tail);
        assert(a.same(b));
    }

    fn decode(input: &mut DurableDecoder<'_>) -> (result: Result<KeyspaceGeneration, StorageError>) {
        let ghost whole = input.rest();
        match u64::decode(input) {
            Ok(raw) => {
                let value = KeyspaceGeneration(raw);
                proof {
                    lemma_starts_with_value(value, input.rest());
                }
                Ok(value)
            },
            Err(error) => {
                proof {
                    assert forall|value: KeyspaceGeneration, tail: Seq<u8>| #[trigger]
                        (value.wire() + tail) == whole implies false by {
                        lemma_starts_with_value(value.0, tail);
                    }
                }
                Err(error)
            },
        }
    }
}

/// A logical time limit.
#[derive(Clone, Copy, Debug, PartialEq, Eq, PartialOrd, Ord, Hash, Structural)]
pub struct LogicalDeadline(pub u64);

impl LogicalDeadline {
    pub fn from_raw(raw: u64) -> (id: LogicalDeadline)
        ensures
            id == LogicalDeadline(raw),
    {
        LogicalDeadline(raw)
    }

    pub fn raw(self) -> (raw: u64)
        ensures
            raw == self.0,
    {
        self.0
    }
}

impl DurableEncode for LogicalDeadline {
    open spec fn wire(&self) -> Seq<u8> {
        self.0.wire()
    }

    open spec fn durable(&self) -> bool {
        true
    }

    fn encode(&self, out: &mut DurableEncoder) -> (result: Result<(), StorageError>) {
        self.0.encode(out)
    }
}

impl DurableCodec for LogicalDeadline {
    open spec fn same(&self, other: &LogicalDeadline) -> bool {
        *self == *other
    }

    proof fn lemma_unambiguous(a: &LogicalDeadline, b: &LogicalDeadline, a_tail: Seq<u8>, b_tail: Seq<u8>) {
        u64::lemma_unambiguous(&a.0, &b.0, a_tail, b_tail);
        assert(a.same(b));
    }

    fn decode(input: &mut DurableDecoder<'_>) -> (result: Result<LogicalDeadline, StorageError>) {
        let ghost whole = input.rest();
        match u64::decode(input) {
            Ok(raw) => {
                let value = LogicalDeadline(raw);
                proof {
                    lemma_starts_with_value(value, input.rest());
                }
                Ok(value)
            },
            Err(error) => {
                proof {
                    assert forall|value: LogicalDeadline, tail: Seq<u8>| #[trigger]
                        (value.wire() + tail) == whole implies false by {
                        lemma_starts_with_value(value.0, tail);
                    }
                }
                Err(error)
            },
        }
    }
}

/// A logical point in time.
#[derive(Clone, Copy, Debug, PartialEq, Eq, PartialOrd, Ord, Hash, Structural)]
pub struct LogicalTime(pub u64);

impl LogicalTime {
    pub fn from_raw(raw: u64) -> (id: LogicalTime)
        ensures
            id == LogicalTime(raw),
    {
        LogicalTime(raw)
    }

    pub fn raw(self) -> (raw: u64)
        ensures
            raw == self.0,
    {
        self.0
    }
}

impl DurableEncode for LogicalTime {
    open spec fn wire(&self) -> Seq<u8> {
        self.0.wire()
    }

    open spec fn durable(&self) -> bool {
        true
    }

    fn encode(&self, out: &mut DurableEncoder) -> (result: Result<(), StorageError>) {
        self.0.encode(out)
    }
}

impl DurableCodec for LogicalTime {
    open spec fn same(&self, other: &LogicalTime) -> bool {
        *self == *other
    }

    proof fn lemma_unambiguous(a: &LogicalTime, b: &LogicalTime, a_tail: Seq<u8>, b_tail: Seq<u8>) {
        u64::lemma_unambiguous(&a.0, &b.0, a_tail, b_tail);
        assert(a.same(b));
    }

    fn decode(input: &mut DurableDecoder<'_>) -> (result: Result<LogicalTime, StorageError>) {
        let ghost whole = input.rest();
        match u64::decode(input) {
            Ok(raw) => {
                let value = LogicalTime(raw);
                proof {
                    lemma_starts_with_value(value, input.rest());
                }
                Ok(value)
            },
            Err(error) => {
                proof {
                    assert forall|value: LogicalTime, tail: Seq<u8>| #[trigger]
                        (value.wire() + tail) == whole implies false by {
                        lemma_starts_with_value(value.0, tail);
                    }
                }
                Err(error)
            },
        }
    }
}

/// The life of a server that an answer belongs to.
#[derive(Clone, Copy, Debug, PartialEq, Eq, PartialOrd, Ord, Hash, Structural)]
pub struct ServerIncarnation(pub u64);

impl ServerIncarnation {
    pub fn from_raw(raw: u64) -> (id: ServerIncarnation)
        ensures
            id == ServerIncarnation(raw),
    {
        ServerIncarnation(raw)
    }

    pub fn raw(self) -> (raw: u64)
        ensures
            raw == self.0,
    {
        self.0
    }
}

impl DurableEncode for ServerIncarnation {
    open spec fn wire(&self) -> Seq<u8> {
        self.0.wire()
    }

    open spec fn durable(&self) -> bool {
        true
    }

    fn encode(&self, out: &mut DurableEncoder) -> (result: Result<(), StorageError>) {
        self.0.encode(out)
    }
}

impl DurableCodec for ServerIncarnation {
    open spec fn same(&self, other: &ServerIncarnation) -> bool {
        *self == *other
    }

    proof fn lemma_unambiguous(a: &ServerIncarnation, b: &ServerIncarnation, a_tail: Seq<u8>, b_tail: Seq<u8>) {
        u64::lemma_unambiguous(&a.0, &b.0, a_tail, b_tail);
        assert(a.same(b));
    }

    fn decode(input: &mut DurableDecoder<'_>) -> (result: Result<ServerIncarnation, StorageError>) {
        let ghost whole = input.rest();
        match u64::decode(input) {
            Ok(raw) => {
                let value = ServerIncarnation(raw);
                proof {
                    lemma_starts_with_value(value, input.rest());
                }
                Ok(value)
            },
            Err(error) => {
                proof {
                    assert forall|value: ServerIncarnation, tail: Seq<u8>| #[trigger]
                        (value.wire() + tail) == whole implies false by {
                        lemma_starts_with_value(value.0, tail);
                    }
                }
                Err(error)
            },
        }
    }
}

/// Tells a writer from the ones before it.
#[derive(Clone, Copy, Debug, PartialEq, Eq, PartialOrd, Ord, Hash, Structural)]
pub struct WriterEpoch(pub u64);

impl WriterEpoch {
    pub fn from_raw(raw: u64) -> (id: WriterEpoch)
        ensures
            id == WriterEpoch(raw),
    {
        WriterEpoch(raw)
    }

    pub fn raw(self) -> (raw: u64)
        ensures
            raw == self.0,
    {
        self.0
    }
}

impl DurableEncode for WriterEpoch {
    open spec fn wire(&self) -> Seq<u8> {
        self.0.wire()
    }

    open spec fn durable(&self) -> bool {
        true
    }

    fn encode(&self, out: &mut DurableEncoder) -> (result: Result<(), StorageError>) {
        self.0.encode(out)
    }
}

impl DurableCodec for WriterEpoch {
    open spec fn same(&self, other: &WriterEpoch) -> bool {
        *self == *other
    }

    proof fn lemma_unambiguous(a: &WriterEpoch, b: &WriterEpoch, a_tail: Seq<u8>, b_tail: Seq<u8>) {
        u64::lemma_unambiguous(&a.0, &b.0, a_tail, b_tail);
        assert(a.same(b));
    }

    fn decode(input: &mut DurableDecoder<'_>) -> (result: Result<WriterEpoch, StorageError>) {
        let ghost whole = input.rest();
        match u64::decode(input) {
            Ok(raw) => {
                let value = WriterEpoch(raw);
                proof {
                    lemma_starts_with_value(value, input.rest());
                }
                Ok(value)
            },
            Err(error) => {
                proof {
                    assert forall|value: WriterEpoch, tail: Seq<u8>| #[trigger]
                        (value.wire() + tail) == whole implies false by {
                        lemma_starts_with_value(value.0, tail);
                    }
                }
                Err(error)
            },
        }
    }
}

/// A shard of a device.
#[derive(Clone, Copy, Debug, PartialEq, Eq, PartialOrd, Ord, Hash, Structural)]
pub struct ShardId(pub u32);

impl ShardId {
    pub fn from_raw(raw: u32) -> (id: ShardId)
        ensures
            id == ShardId(raw),
    {
        ShardId(raw)
    }

    pub fn raw(self) -> (raw: u32)
        ensures
            raw == self.0,
    {
        self.0
    }
}

impl DurableEncode for ShardId {
    open spec fn wire(&self) -> Seq<u8> {
        self.0.wire()
    }

    open spec fn durable(&self) -> bool {
        true
    }

    fn encode(&self, out: &mut DurableEncoder) -> (result: Result<(), StorageError>) {
        self.0.encode(out)
    }
}

impl DurableCodec for ShardId {
    open spec fn same(&self, other: &ShardId) -> bool {
        *self == *other
    }

    proof fn lemma_unambiguous(a: &ShardId, b: &ShardId, a_tail: Seq<u8>, b_tail: Seq<u8>) {
        u32::lemma_unambiguous(&a.0, &b.0, a_tail, b_tail);
        assert(a.same(b));
    }

    fn decode(input: &mut DurableDecoder<'_>) -> (result: Result<ShardId, StorageError>) {
        let ghost whole = input.rest();
        match u32::decode(input) {
            Ok(raw) => {
                let value = ShardId(raw);
                proof {
                    lemma_starts_with_value(value, input.rest());
                }
                Ok(value)
            },
            Err(error) => {
                proof {
                    assert forall|value: ShardId, tail: Seq<u8>| #[trigger]
                        (value.wire() + tail) == whole implies false by {
                        lemma_starts_with_value(value.0, tail);
                    }
                }
                Err(error)
            },
        }
    }
}

} // verus!
