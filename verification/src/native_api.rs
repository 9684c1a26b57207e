//! Keyspaces and files as clients see them: requests and answers.
use vstd::prelude::*;

use crate::codec::{durable_codec_error, lemma_drop_tag, lemma_starts_with_value, pair_same, pair_wire, DurableCodec, DurableDecoder, DurableEncode, DurableEncoder};
use crate::error::StorageError;
use crate::block_api::{
    ByteRange, FlushResult, PayloadIntegrity, ReadResponse, ReadVerification, RestorePoint,
    WriteDurability,
};
use crate::id::{
    AppendPublishTicketId, AppendStreamId, AppendTicketId, CheckpointId, ClientEpoch, CommitSeq,
    FileId, FileVersion, KeyspaceGeneration, KeyspaceId, LogicalDeadline, RequestId,
    ServerIncarnation, WriterEpoch,
};

verus! {

/// A request for a new keyspace.
#[derive(Clone, Debug, PartialEq, Eq)]
pub struct CreateKeyspaceRequest {
    pub name: Option<String>,
}

impl DurableEncode for CreateKeyspaceRequest {
    #[verifier::opaque]
    open spec fn wire(&self) -> Seq<u8> {
        self.fields().wire()
    }

    open spec fn durable(&self) -> bool {
        self.fields().durable()
    }

    fn encode(&self, out: &mut DurableEncoder) -> (result: Result<(), StorageError>) {
        reveal(<CreateKeyspaceRequest as DurableEncode>::wire);
        self.name.encode(out)
    }
}

impl CreateKeyspaceRequest {
    pub open spec fn fields(self) -> Option<String> {
        self.name
    }
}

impl DurableCodec for CreateKeyspaceRequest {
    open spec fn same(&self, other: &CreateKeyspaceRequest) -> bool {
        self.fields().same(&other.fields())
    }

    proof fn lemma_unambiguous(a: &CreateKeyspaceRequest, b: &CreateKeyspaceRequest, a_tail: Seq<u8>, b_tail: Seq<u8>) {
        reveal(<CreateKeyspaceRequest as DurableEncode>::wire);
        <Option<String>>::lemma_unambiguous(&a.fields(), &b.fields(), a_tail, b_tail);
        assert(a.same(b));
    }

    fn decode(input: &mut DurableDecoder<'_>) -> (result: Result<CreateKeyspaceRequest, StorageError>) {
        reveal(<CreateKeyspaceRequest as DurableEncode>::wire);
        let ghost whole = input.rest();
        match <Option<String>>::decode(input) {
            Ok(name) => {
                let value = CreateKeyspaceRequest { name };
                proof {
                    lemma_starts_with_value(value, input.rest());
                }
                Ok(value)
            },
            Err(error) => {
                proof {
                    assert forall|value: CreateKeyspaceRequest, tail: Seq<u8>|
                        value.durable() && #[trigger] (value.wire() + tail) == whole implies false by {
                        lemma_starts_with_value(value.fields(), tail);
                    }
                }
                Err(error)
            },
        }
    }
}

/// What is known of a keyspace.
#[derive(Clone, Copy, Debug, PartialEq, Eq, Structural)]
pub struct KeyspaceInfo {
    pub keyspace_id: KeyspaceId,
    pub generation: KeyspaceGeneration,
    pub latest_commit: CommitSeq,
    pub file_count: usize,
}

impl DurableEncode for KeyspaceInfo {
    #[verifier::opaque]
    open spec fn wire(&self) -> Seq<u8> {
        self.fields().wire()
    }

    open spec fn durable(&self) -> bool {
        self.fields().durable()
    }

    fn encode(&self, out: &mut DurableEncoder) -> (result: Result<(), StorageError>) {
        reveal(pair_wire);
        reveal(<KeyspaceInfo as DurableEncode>::wire);
        (&self.keyspace_id, (&self.generation, (&self.latest_commit, &self.file_count))).encode(out)
    }
}

impl KeyspaceInfo {
    pub open spec fn fields(self) -> (KeyspaceId, (KeyspaceGeneration, (CommitSeq, usize))) {
        (self.keyspace_id, (self.generation, (self.latest_commit, self.file_count)))
    }
}

impl DurableCodec for KeyspaceInfo {
    open spec fn same(&self, other: &KeyspaceInfo) -> bool {
        *self == *other
    }

    proof fn lemma_unambiguous(a: &KeyspaceInfo, b: &KeyspaceInfo, a_tail: Seq<u8>, b_tail: Seq<u8>) {
        reveal(<KeyspaceInfo as DurableEncode>::wire);
        reveal(pair_same);
        <(KeyspaceId, (KeyspaceGeneration, (CommitSeq, usize)))>::lemma_unambiguous(&a.fields(), &b.fields(), a_tail, b_tail);
        assert(a.same(b));
    }

    fn decode(input: &mut DurableDecoder<'_>) -> (result: Result<KeyspaceInfo, StorageError>) {
        reveal(<KeyspaceInfo as DurableEncode>::wire);
        let ghost whole = input.rest();
        match <(KeyspaceId, (KeyspaceGeneration, (CommitSeq, usize)))>::decode(input) {
            Ok((keyspace_id, (generation, (latest_commit, file_count)))) => {
                let value = KeyspaceInfo { keyspace_id, generation, latest_commit, file_count };
                proof {
                    lemma_starts_with_value(value, input.rest());
                }
                Ok(value)
            },
            Err(error) => {
                proof {
                    assert forall|value: KeyspaceInfo, tail: Seq<u8>|
                        value.durable() && #[trigger] (value.wire() + tail) == whole implies false by {
                        lemma_starts_with_value(value.fields(), tail);
                    }
                }
                Err(error)
            },
        }
    }
}

/// A request for a copy of a keyspace.
#[derive(Clone, Debug, PartialEq, Eq)]
pub struct SnapshotKeyspaceRequest {
    pub target: Option<KeyspaceId>,
    pub name: Option<String>,
}

impl DurableEncode for SnapshotKeyspaceRequest {
    #[verifier::opaque]
    open spec fn wire(&self) -> Seq<u8> {
        self.fields().wire()
    }

    open spec fn durable(&self) -> bool {
        self.fields().durable()
    }

    fn encode(&self, out: &mut DurableEncoder) -> (result: Result<(), StorageError>) {
        reveal(pair_wire);
        reveal(<SnapshotKeyspaceRequest as DurableEncode>::wire);
        (&self.target, &self.name).encode(out)
    }
}

impl SnapshotKeyspaceRequest {
    pub open spec fn fields(self) -> (Option<KeyspaceId>, Option<String>) {
        (self.target, self.name)
    }
}

impl DurableCodec for SnapshotKeyspaceRequest {
    open spec fn same(&self, other: &SnapshotKeyspaceRequest) -> bool {
        self.fields().same(&other.fields())
    }

    proof fn lemma_unambiguous(a: &SnapshotKeyspaceRequest, b: &SnapshotKeyspaceRequest, a_tail: Seq<u8>, b_tail: Seq<u8>) {
        reveal(<SnapshotKeyspaceRequest as DurableEncode>::wire);
        <(Option<KeyspaceId>, Option<String>)>::lemma_unambiguous(&a.fields(), &b.fields(), a_tail, b_tail);
        assert(a.same(b));
    }

    fn decode(input: &mut DurableDecoder<'_>) -> (result: Result<SnapshotKeyspaceRequest, StorageError>) {
        reveal(<SnapshotKeyspaceRequest as DurableEncode>::wire);
        let ghost whole = input.rest();
        match <(Option<KeyspaceId>, Option<String>)>::decode(input) {
            Ok((target, name)) => {
                let value = SnapshotKeyspaceRequest { target, name };
                proof {
                    lemma_starts_with_value(value, input.rest());
                }
                Ok(value)
            },
            Err(error) => {
                proof {
                    assert forall|value: SnapshotKeyspaceRequest, tail: Seq<u8>|
                        value.durable() && #[trigger] (value.wire() + tail) == whole implies false by {
                        lemma_starts_with_value(value.fields(), tail);
                    }
                }
                Err(error)
            },
        }
    }
}

/// The shape of a file.
#[derive(Clone, Debug, PartialEq, Eq)]
pub struct FileSpec {
    pub name: Option<String>,
}

impl DurableEncode for FileSpec {
    #[verifier::opaque]
    open spec fn wire(&self) -> Seq<u8> {
        self.fields().wire()
    }

    open spec fn durable(&self) -> bool {
        self.fields().durable()
    }

    fn encode(&self, out: &mut DurableEncoder) -> (result: Result<(), StorageError>) {
        reveal(<FileSpec as DurableEncode>::wire);
        self.name.encode(out)
    }
}

impl FileSpec {
    pub open spec fn fields(self) -> Option<String> {
        self.name
    }
}

impl DurableCodec for FileSpec {
    open spec fn same(&self, other: &FileSpec) -> bool {
        self.fields().same(&other.fields())
    }

    proof fn lemma_unambiguous(a: &FileSpec, b: &FileSpec, a_tail: Seq<u8>, b_tail: Seq<u8>) {
        reveal(<FileSpec as DurableEncode>::wire);
        <Option<String>>::lemma_unambiguous(&a.fields(), &b.fields(), a_tail, b_tail);
        assert(a.same(b));
    }

    fn decode(input: &mut DurableDecoder<'_>) -> (result: Result<FileSpec, StorageError>) {
        reveal(<FileSpec as DurableEncode>::wire);
        let ghost whole = input.rest();
        match <Option<String>>::decode(input) {
            Ok(name) => {
                let value = FileSpec { name };
                proof {
                    lemma_starts_with_value(value, input.rest());
                }
                Ok(value)
            },
            Err(error) => {
                proof {
                    assert forall|value: FileSpec, tail: Seq<u8>|
                        value.durable() && #[trigger] (value.wire() + tail) == whole implies false by {
                        lemma_starts_with_value(value.fields(), tail);
                    }
                }
                Err(error)
            },
        }
    }
}

/// A request for a new file.
#[derive(Clone, Debug, PartialEq, Eq)]
pub struct CreateFileRequest {
    pub spec: FileSpec,
}

impl DurableEncode for CreateFileRequest {
    #[verifier::opaque]
    open spec fn wire(&self) -> Seq<u8> {
        self.fields().wire()
    }

    open spec fn durable(&self) -> bool {
        self.fields().durable()
    }

    fn encode(&self, out: &mut DurableEncoder) -> (result: Result<(), StorageError>) {
        reveal(<CreateFileRequest as DurableEncode>::wire);
        self.spec.encode(out)
    }
}

impl CreateFileRequest {
    pub open spec fn fields(self) -> FileSpec {
        self.spec
    }
}

impl DurableCodec for CreateFileRequest {
    open spec fn same(&self, other: &CreateFileRequest) -> bool {
        self.fields().same(&other.fields())
    }

    proof fn lemma_unambiguous(a: &CreateFileRequest, b: &CreateFileRequest, a_tail: Seq<u8>, b_tail: Seq<u8>) {
        reveal(<CreateFileRequest as DurableEncode>::wire);
        FileSpec::lemma_unambiguous(&a.fields(), &b.fields(), a_tail, b_tail);
        assert(a.same(b));
    }

    fn decode(input: &mut DurableDecoder<'_>) -> (result: Result<CreateFileRequest, StorageError>) {
        reveal(<CreateFileRequest as DurableEncode>::wire);
        let ghost whole = input.rest();
        match FileSpec::decode(input) {
            Ok(spec) => {
                let value = CreateFileRequest { spec };
                proof {
                    lemma_starts_with_value(value, input.rest());
                }
                Ok(value)
            },
            Err(error) => {
                proof {
                    assert forall|value: CreateFileRequest, tail: Seq<u8>|
                        value.durable() && #[trigger] (value.wire() + tail) == whole implies false by {
                        lemma_starts_with_value(value.fields(), tail);
                    }
                }
                Err(error)
            },
        }
    }
}

/// What is known of a file.
#[derive(Clone, Copy, Debug, PartialEq, Eq, Structural)]
pub struct FileInfo {
    pub keyspace_id: KeyspaceId,
    pub file_id: FileId,
    pub size: u64,
    pub version: FileVersion,
}

impl DurableEncode for FileInfo {
    #[verifier::opaque]
    open spec fn wire(&self) -> Seq<u8> {
        self.fields().wire()
    }

    open spec fn durable(&self) -> bool {
        self.fields().durable()
    }

    fn encode(&self, out: &mut DurableEncoder) -> (result: Result<(), StorageError>) {
        reveal(pair_wire);
        reveal(<FileInfo as DurableEncode>::wire);
        (&self.keyspace_id, (&self.file_id, (&self.size, &self.version))).encode(out)
    }
}

impl FileInfo {
    pub open spec fn fields(self) -> (KeyspaceId, (FileId, (u64, FileVersion))) {
        (self.keyspace_id, (self.file_id, (self.size, self.version)))
    }
}

impl DurableCodec for FileInfo {
    open spec fn same(&self, other: &FileInfo) -> bool {
        *self == *other
    }

    proof fn lemma_unambiguous(a: &FileInfo, b: &FileInfo, a_tail: Seq<u8>, b_tail: Seq<u8>) {
        reveal(<FileInfo as DurableEncode>::wire);
        reveal(pair_same);
        <(KeyspaceId, (FileId, (u64, FileVersion)))>::lemma_unambiguous(&a.fields(), &b.fields(), a_tail, b_tail);
        assert(a.same(b));
    }

    fn decode(input: &mut DurableDecoder<'_>) -> (result: Result<FileInfo, StorageError>) {
        reveal(<FileInfo as DurableEncode>::wire);
        let ghost whole = input.rest();
        match <(KeyspaceId, (FileId, (u64, FileVersion)))>::decode(input) {
            Ok((keyspace_id, (file_id, (size, version)))) => {
                let value = FileInfo { keyspace_id, file_id, size, version };
                proof {
                    lemma_starts_with_value(value, input.rest());
                }
                Ok(value)
            },
            Err(error) => {
                proof {
                    assert forall|value: FileInfo, tail: Seq<u8>|
                        value.durable() && #[trigger] (value.wire() + tail) == whole implies false by {
                        lemma_starts_with_value(value.fields(), tail);
                    }
                }
                Err(error)
            },
        }
    }
}

/// A writer's hold on the end of a file.
#[derive(Clone, Copy, Debug, PartialEq, Eq, Structural)]
pub struct AppendStream {
    pub keyspace_id: KeyspaceId,
    pub file_id: FileId,
    pub stream_id: AppendStreamId,
    pub writer_epoch: WriterEpoch,
    pub base_version: FileVersion,
    pub visible_base_size: u64,
}

impl DurableEncode for AppendStream {
    #[verifier::opaque]
    open spec fn wire(&self) -> Seq<u8> {
        self.fields().wire()
    }

    open spec fn durable(&self) -> bool {
        self.fields().durable()
    }

    fn encode(&self, out: &mut DurableEncoder) -> (result: Result<(), StorageError>) {
        reveal(pair_wire);
        reveal(<AppendStream as DurableEncode>::wire);
        ((&self.keyspace_id, (&self.file_id, (&self.stream_id, &self.writer_epoch))), (&self.base_version, &self.visible_base_size)).encode(out)
    }
}

impl AppendStream {
    pub open spec fn fields(self) -> ((KeyspaceId, (FileId, (AppendStreamId, WriterEpoch))), (FileVersion, u64)) {
        ((self.keyspace_id, (self.file_id, (self.stream_id, self.writer_epoch))), (self.base_version, self.visible_base_size))
    }
}

impl DurableCodec for AppendStream {
    open spec fn same(&self, other: &AppendStream) -> bool {
        *self == *other
    }

    proof fn lemma_unambiguous(a: &AppendStream, b: &AppendStream, a_tail: Seq<u8>, b_tail: Seq<u8>) {
        reveal(<AppendStream as DurableEncode>::wire);
        reveal(pair_same);
        <((KeyspaceId, (FileId, (AppendStreamId, WriterEpoch))), (FileVersion, u64))>::lemma_unambiguous(&a.fields(), &b.fields(), a_tail, b_tail);
        assert(a.same(b));
    }

    fn decode(input: &mut DurableDecoder<'_>) -> (result: Result<AppendStream, StorageError>) {
        reveal(<AppendStream as DurableEncode>::wire);
        let ghost whole = input.rest();
        match <((KeyspaceId, (FileId, (AppendStreamId, WriterEpoch))), (FileVersion, u64))>::decode(input) {
            Ok(((keyspace_id, (file_id, (stream_id, writer_epoch))), (base_version, visible_base_size))) => {
                let value = AppendStream { keyspace_id, file_id, stream_id, writer_epoch, base_version, visible_base_size };
                proof {
                    lemma_starts_with_value(value, input.rest());
                }
                Ok(value)
            },
            Err(error) => {
                proof {
                    assert forall|value: AppendStream, tail: Seq<u8>|
                        value.durable() && #[trigger] (value.wire() + tail) == whole implies false by {
                        lemma_starts_with_value(value.fields(), tail);
                    }
                }
                Err(error)
            },
        }
    }
}

/// An accepted append.
#[derive(Clone, Copy, Debug, PartialEq, Eq, Structural)]
pub struct AppendTicket {
    pub keyspace_id: KeyspaceId,
    pub file_id: FileId,
    pub stream_id: AppendStreamId,
    pub ticket_id: AppendTicketId,
    pub writer_epoch: WriterEpoch,
    pub range: ByteRange,
}

impl DurableEncode for AppendTicket {
    #[verifier::opaque]
    open spec fn wire(&self) -> Seq<u8> {
        self.fields().wire()
    }

    open spec fn durable(&self) -> bool {
        self.fields().durable()
    }

    fn encode(&self, out: &mut DurableEncoder) -> (result: Result<(), StorageError>) {
        reveal(pair_wire);
        reveal(<AppendTicket as DurableEncode>::wire);
        ((&self.keyspace_id, (&self.file_id, (&self.stream_id, &self.ticket_id))), (&self.writer_epoch, &self.range)).encode(out)
    }
}

impl AppendTicket {
    pub open spec fn fields(self) -> ((KeyspaceId, (FileId, (AppendStreamId, AppendTicketId))), (WriterEpoch, ByteRange)) {
        ((self.keyspace_id, (self.file_id, (self.stream_id, self.ticket_id))), (self.writer_epoch, self.range))
    }
}

impl DurableCodec for AppendTicket {
    open spec fn same(&self, other: &AppendTicket) -> bool {
        *self == *other
    }

    proof fn lemma_unambiguous(a: &AppendTicket, b: &AppendTicket, a_tail: Seq<u8>, b_tail: Seq<u8>) {
        reveal(<AppendTicket as DurableEncode>::wire);
        reveal(pair_same);
        <((KeyspaceId, (FileId, (AppendStreamId, AppendTicketId))), (WriterEpoch, ByteRange))>::lemma_unambiguous(&a.fields(), &b.fields(), a_tail, b_tail);
        assert(a.same(b));
    }

    fn decode(input: &mut DurableDecoder<'_>) -> (result: Result<AppendTicket, StorageError>) {
        reveal(<AppendTicket as DurableEncode>::wire);
        let ghost whole = input.rest();
        match <((KeyspaceId, (FileId, (AppendStreamId, AppendTicketId))), (WriterEpoch, ByteRange))>::decode(input) {
            Ok(((keyspace_id, (file_id, (stream_id, ticket_id))), (writer_epoch, range))) => {
                let value = AppendTicket { keyspace_id, file_id, stream_id, ticket_id, writer_epoch, range };
                proof {
                    lemma_starts_with_value(value, input.rest());
                }
                Ok(value)
            },
            Err(error) => {
                proof {
                    assert forall|value: AppendTicket, tail: Seq<u8>|
                        value.durable() && #[trigger] (value.wire() + tail) == whole implies false by {
                        lemma_starts_with_value(value.fields(), tail);
                    }
                }
                Err(error)
            },
        }
    }
}

/// A submitted publish.
#[derive(Clone, Copy, Debug, PartialEq, Eq, Structural)]
pub struct AppendPublishTicket {
    pub keyspace_id: KeyspaceId,
    pub file_id: FileId,
    pub stream_id: AppendStreamId,
    pub ticket_id: AppendPublishTicketId,
    pub writer_epoch: WriterEpoch,
    pub publish_through: u64,
}

impl DurableEncode for AppendPublishTicket {
    #[verifier::opaque]
    open spec fn wire(&self) -> Seq<u8> {
        self.fields().wire()
    }

    open spec fn durable(&self) -> bool {
        self.fields().durable()
    }

    fn encode(&self, out: &mut DurableEncoder) -> (result: Result<(), StorageError>) {
        reveal(pair_wire);
        reveal(<AppendPublishTicket as DurableEncode>::wire);
        ((&self.keyspace_id, (&self.file_id, (&self.stream_id, &self.ticket_id))), (&self.writer_epoch, &self.publish_through)).encode(out)
    }
}

impl AppendPublishTicket {
    pub open spec fn fields(self) -> ((KeyspaceId, (FileId, (AppendStreamId, AppendPublishTicketId))), (WriterEpoch, u64)) {
        ((self.keyspace_id, (self.file_id, (self.stream_id, self.ticket_id))), (self.writer_epoch, self.publish_through))
    }
}

impl DurableCodec for AppendPublishTicket {
    open spec fn same(&self, other: &AppendPublishTicket) -> bool {
        *self == *other
    }

    proof fn lemma_unambiguous(a: &AppendPublishTicket, b: &AppendPublishTicket, a_tail: Seq<u8>, b_tail: Seq<u8>) {
        reveal(<AppendPublishTicket as DurableEncode>::wire);
        reveal(pair_same);
        <((KeyspaceId, (FileId, (AppendStreamId, AppendPublishTicketId))), (WriterEpoch, u64))>::lemma_unambiguous(&a.fields(), &b.fields(), a_tail, b_tail);
        assert(a.same(b));
    }

    fn decode(input: &mut DurableDecoder<'_>) -> (result: Result<AppendPublishTicket, StorageError>) {
        reveal(<AppendPublishTicket as DurableEncode>::wire);
        let ghost whole = input.rest();
        match <((KeyspaceId, (FileId, (AppendStreamId, AppendPublishTicketId))), (WriterEpoch, u64))>::decode(input) {
            Ok(((keyspace_id, (file_id, (stream_id, ticket_id))), (writer_epoch, publish_through))) => {
                let value = AppendPublishTicket { keyspace_id, file_id, stream_id, ticket_id, writer_epoch, publish_through };
                proof {
                    lemma_starts_with_value(value, input.rest());
                }
                Ok(value)
            },
            Err(error) => {
                proof {
                    assert forall|value: AppendPublishTicket, tail: Seq<u8>|
                        value.durable() && #[trigger] (value.wire() + tail) == whole implies false by {
                        lemma_starts_with_value(value.fields(), tail);
                    }
                }
                Err(error)
            },
        }
    }
}

/// A committed publish.
#[derive(Clone, Copy, Debug, PartialEq, Eq, Structural)]
pub struct AppendPublishCommit {
    pub keyspace_id: KeyspaceId,
    pub file_id: FileId,
    pub range: ByteRange,
    pub version: FileVersion,
    pub commit_seq: CommitSeq,
    pub durability: WriteDurability,
}

impl DurableEncode for AppendPublishCommit {
    #[verifier::opaque]
    open spec fn wire(&self) -> Seq<u8> {
        self.fields().wire()
    }

    open spec fn durable(&self) -> bool {
        self.fields().durable()
    }

    fn encode(&self, out: &mut DurableEncoder) -> (result: Result<(), StorageError>) {
        reveal(pair_wire);
        reveal(<AppendPublishCommit as DurableEncode>::wire);
        ((&self.keyspace_id, (&self.file_id, (&self.range, &self.version))), (&self.commit_seq, &self.durability)).encode(out)
    }
}

impl AppendPublishCommit {
    pub open spec fn fields(self) -> ((KeyspaceId, (FileId, (ByteRange, FileVersion))), (CommitSeq, WriteDurability)) {
        ((self.keyspace_id, (self.file_id, (self.range, self.version))), (self.commit_seq, self.durability))
    }
}

impl DurableCodec for AppendPublishCommit {
    open spec fn same(&self, other: &AppendPublishCommit) -> bool {
        *self == *other
    }

    proof fn lemma_unambiguous(a: &AppendPublishCommit, b: &AppendPublishCommit, a_tail: Seq<u8>, b_tail: Seq<u8>) {
        reveal(<AppendPublishCommit as DurableEncode>::wire);
        reveal(pair_same);
        <((KeyspaceId, (FileId, (ByteRange, FileVersion))), (CommitSeq, WriteDurability))>::lemma_unambiguous(&a.fields(), &b.fields(), a_tail, b_tail);
        assert(a.same(b));
    }

    fn decode(input: &mut DurableDecoder<'_>) -> (result: Result<AppendPublishCommit, StorageError>) {
        reveal(<AppendPublishCommit as DurableEncode>::wire);
        let ghost whole = input.rest();
        match <((KeyspaceId, (FileId, (ByteRange, FileVersion))), (CommitSeq, WriteDurability))>::decode(input) {
            Ok(((keyspace_id, (file_id, (range, version))), (commit_seq, durability))) => {
                let value = AppendPublishCommit { keyspace_id, file_id, range, version, commit_seq, durability };
                proof {
                    lemma_starts_with_value(value, input.rest());
                }
                Ok(value)
            },
            Err(error) => {
                proof {
                    assert forall|value: AppendPublishCommit, tail: Seq<u8>|
                        value.durable() && #[trigger] (value.wire() + tail) == whole implies false by {
                        lemma_starts_with_value(value.fields(), tail);
                    }
                }
                Err(error)
            },
        }
    }
}

/// A committed file write.
#[derive(Clone, Copy, Debug, PartialEq, Eq, Structural)]
pub struct FileWriteCommit {
    pub keyspace_id: KeyspaceId,
    pub file_id: FileId,
    pub range: ByteRange,
    pub version: FileVersion,
    pub commit_seq: CommitSeq,
    pub durability: WriteDurability,
}

impl DurableEncode for FileWriteCommit {
    #[verifier::opaque]
    open spec fn wire(&self) -> Seq<u8> {
        self.fields().wire()
    }

    open spec fn durable(&self) -> bool {
        self.fields().durable()
    }

    fn encode(&self, out: &mut DurableEncoder) -> (result: Result<(), StorageError>) {
        reveal(pair_wire);
        reveal(<FileWriteCommit as DurableEncode>::wire);
        ((&self.keyspace_id, (&self.file_id, (&self.range, &self.version))), (&self.commit_seq, &self.durability)).encode(out)
    }
}

impl FileWriteCommit {
    pub open spec fn fields(self) -> ((KeyspaceId, (FileId, (ByteRange, FileVersion))), (CommitSeq, WriteDurability)) {
        ((self.keyspace_id, (self.file_id, (self.range, self.version))), (self.commit_seq, self.durability))
    }
}

impl DurableCodec for FileWriteCommit {
    open spec fn same(&self, other: &FileWriteCommit) -> bool {
        *self == *other
    }

    proof fn lemma_unambiguous(a: &FileWriteCommit, b: &FileWriteCommit, a_tail: Seq<u8>, b_tail: Seq<u8>) {
        reveal(<FileWriteCommit as DurableEncode>::wire);
        reveal(pair_same);
        <((KeyspaceId, (FileId, (ByteRange, FileVersion))), (CommitSeq, WriteDurability))>::lemma_unambiguous(&a.fields(), &b.fields(), a_tail, b_tail);
        assert(a.same(b));
    }

    fn decode(input: &mut DurableDecoder<'_>) -> (result: Result<FileWriteCommit, StorageError>) {
        reveal(<FileWriteCommit as DurableEncode>::wire);
        let ghost whole = input.rest();
        match <((KeyspaceId, (FileId, (ByteRange, FileVersion))), (CommitSeq, WriteDurability))>::decode(input) {
            Ok(((keyspace_id, (file_id, (range, version))), (commit_seq, durability))) => {
                let value = FileWriteCommit { keyspace_id, file_id, range, version, commit_seq, durability };
                proof {
                    lemma_starts_with_value(value, input.rest());
                }
                Ok(value)
            },
            Err(error) => {
                proof {
                    assert forall|value: FileWriteCommit, tail: Seq<u8>|
                        value.durable() && #[trigger] (value.wire() + tail) == whole implies false by {
                        lemma_starts_with_value(value.fields(), tail);
                    }
                }
                Err(error)
            },
        }
    }
}

/// One write of a file batch.
#[derive(Clone, Debug, PartialEq, Eq)]
pub struct FileBatchWrite {
    pub offset: u64,
    pub bytes: Vec<u8>,
}

impl DurableEncode for FileBatchWrite {
    #[verifier::opaque]
    open spec fn wire(&self) -> Seq<u8> {
        self.fields().wire()
    }

    open spec fn durable(&self) -> bool {
        self.fields().durable()
    }

    fn encode(&self, out: &mut DurableEncoder) -> (result: Result<(), StorageError>) {
        reveal(pair_wire);
        reveal(<FileBatchWrite as DurableEncode>::wire);
        (&self.offset, &self.bytes).encode(out)
    }
}

impl FileBatchWrite {
    pub open spec fn fields(self) -> (u64, Vec<u8>) {
        (self.offset, self.bytes)
    }
}

impl DurableCodec for FileBatchWrite {
    open spec fn same(&self, other: &FileBatchWrite) -> bool {
        self.fields().same(&other.fields())
    }

    proof fn lemma_unambiguous(a: &FileBatchWrite, b: &FileBatchWrite, a_tail: Seq<u8>, b_tail: Seq<u8>) {
        reveal(<FileBatchWrite as DurableEncode>::wire);
        <(u64, Vec<u8>)>::lemma_unambiguous(&a.fields(), &b.fields(), a_tail, b_tail);
        assert(a.same(b));
    }

    fn decode(input: &mut DurableDecoder<'_>) -> (result: Result<FileBatchWrite, StorageError>) {
        reveal(<FileBatchWrite as DurableEncode>::wire);
        let ghost whole = input.rest();
        match <(u64, Vec<u8>)>::decode(input) {
            Ok((offset, bytes)) => {
                let value = FileBatchWrite { offset, bytes };
                proof {
                    lemma_starts_with_value(value, input.rest());
                }
                Ok(value)
            },
            Err(error) => {
                proof {
                    assert forall|value: FileBatchWrite, tail: Seq<u8>|
                        value.durable() && #[trigger] (value.wire() + tail) == whole implies false by {
                        lemma_starts_with_value(value.fields(), tail);
                    }
                }
                Err(error)
            },
        }
    }
}

/// A request to a native file service.
#[derive(Clone, Debug, PartialEq, Eq)]
pub enum NativeRequest {
    CreateKeyspace { request: CreateKeyspaceRequest },
    KeyspaceInfo { keyspace_id: KeyspaceId },
    CreateFile { keyspace_id: KeyspaceId, request: CreateFileRequest },
    FileInfo { keyspace_id: KeyspaceId, file_id: FileId },
    Read {
        keyspace_id: KeyspaceId,
        file_id: FileId,
        range: ByteRange,
        verification: ReadVerification,
    },
    CommitFileBatch {
        keyspace_id: KeyspaceId,
        file_id: FileId,
        writes: Vec<FileBatchWrite>,
        payload_integrity: PayloadIntegrity,
        durability: WriteDurability,
    },
    OpenAppendStream { keyspace_id: KeyspaceId, file_id: FileId },
    AppendStream {
        keyspace_id: KeyspaceId,
        file_id: FileId,
        stream: AppendStream,
        bytes: Vec<u8>,
        payload_integrity: PayloadIntegrity,
    },
    SubmitAppendPublish {
        keyspace_id: KeyspaceId,
        file_id: FileId,
        stream: AppendStream,
        publish_through: u64,
    },
    WaitAppendPublish { keyspace_id: KeyspaceId, file_id: FileId, ticket: AppendPublishTicket },
    PublishAppendStream {
        keyspace_id: KeyspaceId,
        file_id: FileId,
        stream: AppendStream,
        publish_through: u64,
    },
    ReleaseAppendStream { keyspace_id: KeyspaceId, file_id: FileId, stream: AppendStream },
    AbortAppendStream { keyspace_id: KeyspaceId, file_id: FileId, stream: AppendStream },
    Flush { keyspace_id: KeyspaceId, file_id: FileId },
    CheckpointKeyspace { keyspace_id: KeyspaceId },
    SnapshotKeyspace { source: KeyspaceId, request: SnapshotKeyspaceRequest },
    RestoreKeyspace { source: KeyspaceId, point: RestorePoint },
}

impl NativeRequest {
    /// The byte that tells the variants apart.
    pub open spec fn tag(&self) -> u8 {
        match self {
            NativeRequest::CreateKeyspace { .. } => 1,
            NativeRequest::KeyspaceInfo { .. } => 2,
            NativeRequest::CreateFile { .. } => 3,
            NativeRequest::FileInfo { .. } => 4,
            NativeRequest::Read { .. } => 5,
            NativeRequest::CommitFileBatch { .. } => 6,
            NativeRequest::OpenAppendStream { .. } => 7,
            NativeRequest::AppendStream { .. } => 8,
            NativeRequest::SubmitAppendPublish { .. } => 9,
            NativeRequest::WaitAppendPublish { .. } => 10,
            NativeRequest::PublishAppendStream { .. } => 11,
            NativeRequest::ReleaseAppendStream { .. } => 12,
            NativeRequest::AbortAppendStream { .. } => 13,
            NativeRequest::Flush { .. } => 14,
            NativeRequest::CheckpointKeyspace { .. } => 15,
            NativeRequest::SnapshotKeyspace { .. } => 16,
            NativeRequest::RestoreKeyspace { .. } => 17,
        }
    }

    /// The bytes behind the tag.
    pub open spec fn body(&self) -> Seq<u8> {
        match *self {
            NativeRequest::CreateKeyspace { request } => request.wire(),
            NativeRequest::KeyspaceInfo { keyspace_id } => keyspace_id.wire(),
            NativeRequest::CreateFile { keyspace_id, request } => (keyspace_id, request).wire(),
            NativeRequest::FileInfo { keyspace_id, file_id } => (keyspace_id, file_id).wire(),
            NativeRequest::Read { keyspace_id, file_id, range, verification } => (keyspace_id, (file_id, (range, verification))).wire(),
            NativeRequest::CommitFileBatch { keyspace_id, file_id, writes, payload_integrity, durability } => ((keyspace_id, (file_id, (writes, payload_integrity))), durability).wire(),
            NativeRequest::OpenAppendStream { keyspace_id, file_id } => (keyspace_id, file_id).wire(),
            NativeRequest::AppendStream { keyspace_id, file_id, stream, bytes, payload_integrity } => ((keyspace_id, (file_id, (stream, bytes))), payload_integrity).wire(),
            NativeRequest::SubmitAppendPublish { keyspace_id, file_id, stream, publish_through } => (keyspace_id, (file_id, (stream, publish_through))).wire(),
            NativeRequest::WaitAppendPublish { keyspace_id, file_id, ticket } => (keyspace_id, (file_id, ticket)).wire(),
            NativeRequest::PublishAppendStream { keyspace_id, file_id, stream, publish_through } => (keyspace_id, (file_id, (stream, publish_through))).wire(),
            NativeRequest::ReleaseAppendStream { keyspace_id, file_id, stream } => (keyspace_id, (file_id, stream)).wire(),
            NativeRequest::AbortAppendStream { keyspace_id, file_id, stream } => (keyspace_id, (file_id, stream)).wire(),
            NativeRequest::Flush { keyspace_id, file_id } => (keyspace_id, file_id).wire(),
            NativeRequest::CheckpointKeyspace { keyspace_id } => keyspace_id.wire(),
            NativeRequest::SnapshotKeyspace { source, request } => (source, request).wire(),
            NativeRequest::RestoreKeyspace { source, point } => (source, point).wire(),
        }
    }
}

impl DurableEncode for NativeRequest {
    #[verifier::opaque]
    open spec fn wire(&self) -> Seq<u8> {
        seq![self.tag()] + self.body()
    }

    open spec fn durable(&self) -> bool {
        match *self {
            NativeRequest::CreateKeyspace { request } => request.durable(),
            NativeRequest::KeyspaceInfo { keyspace_id } => keyspace_id.durable(),
            NativeRequest::CreateFile { keyspace_id, request } => (keyspace_id, request).durable(),
            NativeRequest::FileInfo { keyspace_id, file_id } => (keyspace_id, file_id).durable(),
            NativeRequest::Read { keyspace_id, file_id, range, verification } => (keyspace_id, (file_id, (range, verification))).durable(),
            NativeRequest::CommitFileBatch { keyspace_id, file_id, writes, payload_integrity, durability } => ((keyspace_id, (file_id, (writes, payload_integrity))), durability).durable(),
            NativeRequest::OpenAppendStream { keyspace_id, file_id } => (keyspace_id, file_id).durable(),
            NativeRequest::AppendStream { keyspace_id, file_id, stream, bytes, payload_integrity } => ((keyspace_id, (file_id, (stream, bytes))), payload_integrity).durable(),
            NativeRequest::SubmitAppendPublish { keyspace_id, file_id, stream, publish_through } => (keyspace_id, (file_id, (stream, publish_through))).durable(),
            NativeRequest::WaitAppendPublish { keyspace_id, file_id, ticket } => (keyspace_id, (file_id, ticket)).durable(),
            NativeRequest::PublishAppendStream { keyspace_id, file_id, stream, publish_through } => (keyspace_id, (file_id, (stream, publish_through))).durable(),
            NativeRequest::ReleaseAppendStream { keyspace_id, file_id, stream } => (keyspace_id, (file_id, stream)).durable(),
            NativeRequest::AbortAppendStream { keyspace_id, file_id, stream } => (keyspace_id, (file_id, stream)).durable(),
            NativeRequest::Flush { keyspace_id, file_id } => (keyspace_id, file_id).durable(),
            NativeRequest::CheckpointKeyspace { keyspace_id } => keyspace_id.durable(),
            NativeRequest::SnapshotKeyspace { source, request } => (source, request).durable(),
            NativeRequest::RestoreKeyspace { source, point } => (source, point).durable(),
        }
    }

    fn encode(&self, out: &mut DurableEncoder) -> (result: Result<(), StorageError>) {
        reveal(pair_wire);
        reveal(<NativeRequest as DurableEncode>::wire);
        match self {
            NativeRequest::CreateKeyspace { request } => {
                out.put_u8(1);
                request.encode(out)?;
            },
            NativeRequest::KeyspaceInfo { keyspace_id } => {
                out.put_u8(2);
                keyspace_id.encode(out)?;
            },
            NativeRequest::CreateFile { keyspace_id, request } => {
                out.put_u8(3);
                (keyspace_id, request).encode(out)?;
            },
            NativeRequest::FileInfo { keyspace_id, file_id } => {
                out.put_u8(4);
                (keyspace_id, file_id).encode(out)?;
            },
            NativeRequest::Read { keyspace_id, file_id, range, verification } => {
                out.put_u8(5);
                (keyspace_id, (file_id, (range, verification))).encode(out)?;
            },
            NativeRequest::CommitFileBatch { keyspace_id, file_id, writes, payload_integrity, durability } => {
                out.put_u8(6);
                ((keyspace_id, (file_id, (writes, payload_integrity))), durability).encode(out)?;
            },
            NativeRequest::OpenAppendStream { keyspace_id, file_id } => {
                out.put_u8(7);
                (keyspace_id, file_id).encode(out)?;
            },
            NativeRequest::AppendStream { keyspace_id, file_id, stream, bytes, payload_integrity } => {
                out.put_u8(8);
                ((keyspace_id, (file_id, (stream, bytes))), payload_integrity).encode(out)?;
            },
            NativeRequest::SubmitAppendPublish { keyspace_id, file_id, stream, publish_through } => {
                out.put_u8(9);
                (keyspace_id, (file_id, (stream, publish_through))).encode(out)?;
            },
            NativeRequest::WaitAppendPublish { keyspace_id, file_id, ticket } => {
                out.put_u8(10);
                (keyspace_id, (file_id, ticket)).encode(out)?;
            },
            NativeRequest::PublishAppendStream { keyspace_id, file_id, stream, publish_through } => {
                out.put_u8(11);
                (keyspace_id, (file_id, (stream, publish_through))).encode(out)?;
            },
            NativeRequest::ReleaseAppendStream { keyspace_id, file_id, stream } => {
                out.put_u8(12);
                (keyspace_id, (file_id, stream)).encode(out)?;
            },
            NativeRequest::AbortAppendStream { keyspace_id, file_id, stream } => {
                out.put_u8(13);
                (keyspace_id, (file_id, stream)).encode(out)?;
            },
            NativeRequest::Flush { keyspace_id, file_id } => {
                out.put_u8(14);
                (keyspace_id, file_id).encode(out)?;
            },
            NativeRequest::CheckpointKeyspace { keyspace_id } => {
                out.put_u8(15);
                keyspace_id.encode(out)?;
            },
            NativeRequest::SnapshotKeyspace { source, request } => {
                out.put_u8(16);
                (source, request).encode(out)?;
            },
            NativeRequest::RestoreKeyspace { source, point } => {
                out.put_u8(17);
                (source, point).encode(out)?;
            },
        }
        assert(out@ =~= old(out)@ + self.wire());
        Ok(())
    }
}

impl DurableCodec for NativeRequest {
    open spec fn same(&self, other: &NativeRequest) -> bool {
        match (*self, *other) {
            (NativeRequest::CreateKeyspace { request }, NativeRequest::CreateKeyspace { request: other_request }) => {
                request.same(&other_request)
            },
            (NativeRequest::KeyspaceInfo { keyspace_id }, NativeRequest::KeyspaceInfo { keyspace_id: other_keyspace_id }) => {
                keyspace_id.same(&other_keyspace_id)
            },
            (NativeRequest::CreateFile { keyspace_id, request }, NativeRequest::CreateFile { keyspace_id: other_keyspace_id, request: other_request }) => {
                (keyspace_id, request).same(&(other_keyspace_id, other_request))
            },
            (NativeRequest::FileInfo { keyspace_id, file_id }, NativeRequest::FileInfo { keyspace_id: other_keyspace_id, file_id: other_file_id }) => {
                (keyspace_id, file_id).same(&(other_keyspace_id, other_file_id))
            },
            (NativeRequest::Read { keyspace_id, file_id, range, verification }, NativeRequest::Read { keyspace_id: other_keyspace_id, file_id: other_file_id, range: other_range, verification: other_verification }) => {
                (keyspace_id, (file_id, (range, verification))).same(&(other_keyspace_id, (other_file_id, (other_range, other_verification))))
            },
            (NativeRequest::CommitFileBatch { keyspace_id, file_id, writes, payload_integrity, durability }, NativeRequest::CommitFileBatch { keyspace_id: other_keyspace_id, file_id: other_file_id, writes: other_writes, payload_integrity: other_payload_integrity, durability: other_durability }) => {
                ((keyspace_id, (file_id, (writes, payload_integrity))), durability).same(&((other_keyspace_id, (other_file_id, (other_writes, other_payload_integrity))), other_durability))
            },
            (NativeRequest::OpenAppendStream { keyspace_id, file_id }, NativeRequest::OpenAppendStream { keyspace_id: other_keyspace_id, file_id: other_file_id }) => {
                (keyspace_id, file_id).same(&(other_keyspace_id, other_file_id))
            },
            (NativeRequest::AppendStream { keyspace_id, file_id, stream, bytes, payload_integrity }, NativeRequest::AppendStream { keyspace_id: other_keyspace_id, file_id: other_file_id, stream: other_stream, bytes: other_bytes, payload_integrity: other_payload_integrity }) => {
                ((keyspace_id, (file_id, (stream, bytes))), payload_integrity).same(&((other_keyspace_id, (other_file_id, (other_stream, other_bytes))), other_payload_integrity))
            },
            (NativeRequest::SubmitAppendPublish { keyspace_id, file_id, stream, publish_through }, NativeRequest::SubmitAppendPublish { keyspace_id: other_keyspace_id, file_id: other_file_id, stream: other_stream, publish_through: other_publish_through }) => {
                (keyspace_id, (file_id, (stream, publish_through))).same(&(other_keyspace_id, (other_file_id, (other_stream, other_publish_through))))
            },
            (NativeRequest::WaitAppendPublish { keyspace_id, file_id, ticket }, NativeRequest::WaitAppendPublish { keyspace_id: other_keyspace_id, file_id: other_file_id, ticket: other_ticket }) => {
                (keyspace_id, (file_id, ticket)).same(&(other_keyspace_id, (other_file_id, other_ticket)))
            },
            (NativeRequest::PublishAppendStream { keyspace_id, file_id, stream, publish_through }, NativeRequest::PublishAppendStream { keyspace_id: other_keyspace_id, file_id: other_file_id, stream: other_stream, publish_through: other_publish_through }) => {
                (keyspace_id, (file_id, (stream, publish_through))).same(&(other_keyspace_id, (other_file_id, (other_stream, other_publish_through))))
            },
            (NativeRequest::ReleaseAppendStream { keyspace_id, file_id, stream }, NativeRequest::ReleaseAppendStream { keyspace_id: other_keyspace_id, file_id: other_file_id, stream: other_stream }) => {
                (keyspace_id, (file_id, stream)).same(&(other_keyspace_id, (other_file_id, other_stream)))
            },
            (NativeRequest::AbortAppendStream { keyspace_id, file_id, stream }, NativeRequest::AbortAppendStream { keyspace_id: other_keyspace_id, file_id: other_file_id, stream: other_stream }) => {
                (keyspace_id, (file_id, stream)).same(&(other_keyspace_id, (other_file_id, other_stream)))
            },
            (NativeRequest::Flush { keyspace_id, file_id }, NativeRequest::Flush { keyspace_id: other_keyspace_id, file_id: other_file_id }) => {
                (keyspace_id, file_id).same(&(other_keyspace_id, other_file_id))
            },
            (NativeRequest::CheckpointKeyspace { keyspace_id }, NativeRequest::CheckpointKeyspace { keyspace_id: other_keyspace_id }) => {
                keyspace_id.same(&other_keyspace_id)
            },
            (NativeRequest::SnapshotKeyspace { source, request }, NativeRequest::SnapshotKeyspace { source: other_source, request: other_request }) => {
                (source, request).same(&(other_source, other_request))
            },
            (NativeRequest::RestoreKeyspace { source, point }, NativeRequest::RestoreKeyspace { source: other_source, point: other_point }) => {
                (source, point).same(&(other_source, other_point))
            },
            _ => false,
        }
    }

    proof fn lemma_unambiguous(a: &NativeRequest, b: &NativeRequest, a_tail: Seq<u8>, b_tail: Seq<u8>) {
        reveal(<NativeRequest as DurableEncode>::wire);
        lemma_drop_tag(a.tag(), a.body(), a_tail);
        lemma_drop_tag(b.tag(), b.body(), b_tail);
        match (*a, *b) {
            (NativeRequest::CreateKeyspace { request }, NativeRequest::CreateKeyspace { request: b_request }) => {
                CreateKeyspaceRequest::lemma_unambiguous(&request, &b_request, a_tail, b_tail);
            },
            (NativeRequest::KeyspaceInfo { keyspace_id }, NativeRequest::KeyspaceInfo { keyspace_id: b_keyspace_id }) => {
                KeyspaceId::lemma_unambiguous(&keyspace_id, &b_keyspace_id, a_tail, b_tail);
            },
            (NativeRequest::CreateFile { keyspace_id, request }, NativeRequest::CreateFile { keyspace_id: b_keyspace_id, request: b_request }) => {
                <(KeyspaceId, CreateFileRequest)>::lemma_unambiguous(&(keyspace_id, request), &(b_keyspace_id, b_request), a_tail, b_tail);
            },
            (NativeRequest::FileInfo { keyspace_id, file_id }, NativeRequest::FileInfo { keyspace_id: b_keyspace_id, file_id: b_file_id }) => {
                <(KeyspaceId, FileId)>::lemma_unambiguous(&(keyspace_id, file_id), &(b_keyspace_id, b_file_id), a_tail, b_tail);
            },
            (NativeRequest::Read { keyspace_id, file_id, range, verification }, NativeRequest::Read { keyspace_id: b_keyspace_id, file_id: b_file_id, range: b_range, verification: b_verification }) => {
                <(KeyspaceId, (FileId, (ByteRange, ReadVerification)))>::lemma_unambiguous(&(keyspace_id, (file_id, (range, verification))), &(b_keyspace_id, (b_file_id, (b_range, b_verification))), a_tail, b_tail);
            },
            (NativeRequest::CommitFileBatch { keyspace_id, file_id, writes, payload_integrity, durability }, NativeRequest::CommitFileBatch { keyspace_id: b_keyspace_id, file_id: b_file_id, writes: b_writes, payload_integrity: b_payload_integrity, durability: b_durability }) => {
                <((KeyspaceId, (FileId, (Vec<FileBatchWrite>, PayloadIntegrity))), WriteDurability)>::lemma_unambiguous(&((keyspace_id, (file_id, (writes, payload_integrity))), durability), &((b_keyspace_id, (b_file_id, (b_writes, b_payload_integrity))), b_durability), a_tail, b_tail);
            },
            (NativeRequest::OpenAppendStream { keyspace_id, file_id }, NativeRequest::OpenAppendStream { keyspace_id: b_keyspace_id, file_id: b_file_id }) => {
                <(KeyspaceId, FileId)>::lemma_unambiguous(&(keyspace_id, file_id), &(b_keyspace_id, b_file_id), a_tail, b_tail);
            },
            (NativeRequest::AppendStream { keyspace_id, file_id, stream, bytes, payload_integrity }, NativeRequest::AppendStream { keyspace_id: b_keyspace_id, file_id: b_file_id, stream: b_stream, bytes: b_bytes, payload_integrity: b_payload_integrity }) => {
                <((KeyspaceId, (FileId, (AppendStream, Vec<u8>))), PayloadIntegrity)>::lemma_unambiguous(&((keyspace_id, (file_id, (stream, bytes))), payload_integrity), &((b_keyspace_id, (b_file_id, (b_stream, b_bytes))), b_payload_integrity), a_tail, b_tail);
            },
            (NativeRequest::SubmitAppendPublish { keyspace_id, file_id, stream, publish_through }, NativeRequest::SubmitAppendPublish { keyspace_id: b_keyspace_id, file_id: b_file_id, stream: b_stream, publish_through: b_publish_through }) => {
                <(KeyspaceId, (FileId, (AppendStream, u64)))>::lemma_unambiguous(&(keyspace_id, (file_id, (stream, publish_through))), &(b_keyspace_id, (b_file_id, (b_stream, b_publish_through))), a_tail, b_tail);
            },
            (NativeRequest::WaitAppendPublish { keyspace_id, file_id, ticket }, NativeRequest::WaitAppendPublish { keyspace_id: b_keyspace_id, file_id: b_file_id, ticket: b_ticket }) => {
                <(KeyspaceId, (FileId, AppendPublishTicket))>::lemma_unambiguous(&(keyspace_id, (file_id, ticket)), &(b_keyspace_id, (b_file_id, b_ticket)), a_tail, b_tail);
            },
            (NativeRequest::PublishAppendStream { keyspace_id, file_id, stream, publish_through }, NativeRequest::PublishAppendStream { keyspace_id: b_keyspace_id, file_id: b_file_id, stream: b_stream, publish_through: b_publish_through }) => {
                <(KeyspaceId, (FileId, (AppendStream, u64)))>::lemma_unambiguous(&(keyspace_id, (file_id, (stream, publish_through))), &(b_keyspace_id, (b_file_id, (b_stream, b_publish_through))), a_tail, b_tail);
            },
            (NativeRequest::ReleaseAppendStream { keyspace_id, file_id, stream }, NativeRequest::ReleaseAppendStream { keyspace_id: b_keyspace_id, file_id: b_file_id, stream: b_stream }) => {
                <(KeyspaceId, (FileId, AppendStream))>::lemma_unambiguous(&(keyspace_id, (file_id, stream)), &(b_keyspace_id, (b_file_id, b_stream)), a_tail, b_tail);
            },
            (NativeRequest::AbortAppendStream { keyspace_id, file_id, stream }, NativeRequest::AbortAppendStream { keyspace_id: b_keyspace_id, file_id: b_file_id, stream: b_stream }) => {
                <(KeyspaceId, (FileId, AppendStream))>::lemma_unambiguous(&(keyspace_id, (file_id, stream)), &(b_keyspace_id, (b_file_id, b_stream)), a_tail, b_tail);
            },
            (NativeRequest::Flush { keyspace_id, file_id }, NativeRequest::Flush { keyspace_id: b_keyspace_id, file_id: b_file_id }) => {
                <(KeyspaceId, FileId)>::lemma_unambiguous(&(keyspace_id, file_id), &(b_keyspace_id, b_file_id), a_tail, b_tail);
            },
            (NativeRequest::CheckpointKeyspace { keyspace_id }, NativeRequest::CheckpointKeyspace { keyspace_id: b_keyspace_id }) => {
                KeyspaceId::lemma_unambiguous(&keyspace_id, &b_keyspace_id, a_tail, b_tail);
            },
            (NativeRequest::SnapshotKeyspace { source, request }, NativeRequest::SnapshotKeyspace { source: b_source, request: b_request }) => {
                <(KeyspaceId, SnapshotKeyspaceRequest)>::lemma_unambiguous(&(source, request), &(b_source, b_request), a_tail, b_tail);
            },
            (NativeRequest::RestoreKeyspace { source, point }, NativeRequest::RestoreKeyspace { source: b_source, point: b_point }) => {
                <(KeyspaceId, RestorePoint)>::lemma_unambiguous(&(source, point), &(b_source, b_point), a_tail, b_tail);
            },
            _ => {},
        }
    }

    #[verifier::rlimit(40)]
    fn decode(input: &mut DurableDecoder<'_>) -> (result: Result<NativeRequest, StorageError>) {
        reveal(<NativeRequest as DurableEncode>::wire);
        let ghost whole = input.rest();
        let tag: u8 = match input.u8() {
            Ok(tag) => tag,
            Err(error) => {
                proof {
                    assert forall|value: NativeRequest, tail: Seq<u8>| #[trigger]
                        (value.wire() + tail) == whole implies false by {
                        assert((value.wire() + tail).len() >= 1);
                    }
                }
                return Err(error);
            },
        };
        let ghost rest = input.rest();
        proof {
            assert forall|value: NativeRequest, tail: Seq<u8>| #[trigger]
                (value.wire() + tail) == whole implies value.tag() == tag && rest == value.body()
                + tail by {
                lemma_drop_tag(value.tag(), value.body(), tail);
                assert(whole.skip(1) =~= rest);
            }
        }
        match tag {
            1 => match CreateKeyspaceRequest::decode(input) {
                Ok(request) => {
                    let value = NativeRequest::CreateKeyspace { request };
                    proof {
                        assert(whole =~= value.wire() + input.rest());
                        lemma_starts_with_value(value, input.rest());
                    }
                    Ok(value)
                },
                Err(error) => {
                    proof {
                        assert forall|value: NativeRequest, tail: Seq<u8>|
                            value.durable() && #[trigger] (value.wire() + tail) == whole implies false by {
                            match value {
                                NativeRequest::CreateKeyspace { request } => {
                                    lemma_starts_with_value(request, tail);
                                },
                                _ => {},
                            }
                        }
                    }
                    Err(error)
                },
            },
            2 => match KeyspaceId::decode(input) {
                Ok(keyspace_id) => {
                    let value = NativeRequest::KeyspaceInfo { keyspace_id };
                    proof {
                        assert(whole =~= value.wire() + input.rest());
                        lemma_starts_with_value(value, input.rest());
                    }
                    Ok(value)
                },
                Err(error) => {
                    proof {
                        assert forall|value: NativeRequest, tail: Seq<u8>|
                            value.durable() && #[trigger] (value.wire() + tail) == whole implies false by {
                            match value {
                                NativeRequest::KeyspaceInfo { keyspace_id } => {
                                    lemma_starts_with_value(keyspace_id, tail);
                                },
                                _ => {},
                            }
                        }
                    }
                    Err(error)
                },
            },
            3 => match <(KeyspaceId, CreateFileRequest)>::decode(input) {
                Ok((keyspace_id, request)) => {
                    let value = NativeRequest::CreateFile { keyspace_id, request };
                    proof {
                        assert(whole =~= value.wire() + input.rest());
                        lemma_starts_with_value(value, input.rest());
                    }
                    Ok(value)
                },
                Err(error) => {
                    proof {
                        assert forall|value: NativeRequest, tail: Seq<u8>|
                            value.durable() && #[trigger] (value.wire() + tail) == whole implies false by {
                            match value {
                                NativeRequest::CreateFile { keyspace_id, request } => {
                                    lemma_starts_with_value((keyspace_id, request), tail);
                                },
                                _ => {},
                            }
                        }
                    }
                    Err(error)
                },
            },
            4 => match <(KeyspaceId, FileId)>::decode(input) {
                Ok((keyspace_id, file_id)) => {
                    let value = NativeRequest::FileInfo { keyspace_id, file_id };
                    proof {
                        assert(whole =~= value.wire() + input.rest());
                        lemma_starts_with_value(value, input.rest());
                    }
                    Ok(value)
                },
                Err(error) => {
                    proof {
                        assert forall|value: NativeRequest, tail: Seq<u8>|
                            value.durable() && #[trigger] (value.wire() + tail) == whole implies false by {
                            match value {
                                NativeRequest::FileInfo { keyspace_id, file_id } => {
                                    lemma_starts_with_value((keyspace_id, file_id), tail);
                                },
                                _ => {},
                            }
                        }
                    }
                    Err(error)
                },
            },
            5 => match <(KeyspaceId, (FileId, (ByteRange, ReadVerification)))>::decode(input) {
                Ok((keyspace_id, (file_id, (range, verification)))) => {
                    let value = NativeRequest::Read { keyspace_id, file_id, range, verification };
                    proof {
                        assert(whole =~= value.wire() + input.rest());
                        lemma_starts_with_value(value, input.rest());
                    }
                    Ok(value)
                },
                Err(error) => {
                    proof {
                        assert forall|value: NativeRequest, tail: Seq<u8>|
                            value.durable() && #[trigger] (value.wire() + tail) == whole implies false by {
                            match value {
                                NativeRequest::Read { keyspace_id, file_id, range, verification } => {
                                    lemma_starts_with_value((keyspace_id, (file_id, (range, verification))), tail);
                                },
                                _ => {},
                            }
                        }
                    }
                    Err(error)
                },
            },
            6 => match <((KeyspaceId, (FileId, (Vec<FileBatchWrite>, PayloadIntegrity))), WriteDurability)>::decode(input) {
                Ok(((keyspace_id, (file_id, (writes, payload_integrity))), durability)) => {
                    let value = NativeRequest::CommitFileBatch { keyspace_id, file_id, writes, payload_integrity, durability };
                    proof {
                        assert(whole =~= value.wire() + input.rest());
                        lemma_starts_with_value(value, input.rest());
                    }
                    Ok(value)
                },
                Err(error) => {
                    proof {
                        assert forall|value: NativeRequest, tail: Seq<u8>|
                            value.durable() && #[trigger] (value.wire() + tail) == whole implies false by {
                            match value {
                                NativeRequest::CommitFileBatch { keyspace_id, file_id, writes, payload_integrity, durability } => {
                                    lemma_starts_with_value(((keyspace_id, (file_id, (writes, payload_integrity))), durability), tail);
                                },
                                _ => {},
                            }
                        }
                    }
                    Err(error)
                },
            },
            7 => match <(KeyspaceId, FileId)>::decode(input) {
                Ok((keyspace_id, file_id)) => {
                    let value = NativeRequest::OpenAppendStream { keyspace_id, file_id };
                    proof {
                        assert(whole =~= value.wire() + input.rest());
                        lemma_starts_with_value(value, input.rest());
                    }
                    Ok(value)
                },
                Err(error) => {
                    proof {
                        assert forall|value: NativeRequest, tail: Seq<u8>|
                            value.durable() && #[trigger] (value.wire() + tail) == whole implies false by {
                            match value {
                                NativeRequest::OpenAppendStream { keyspace_id, file_id } => {
                                    lemma_starts_with_value((keyspace_id, file_id), tail);
                                },
                                _ => {},
                            }
                        }
                    }
                    Err(error)
                },
            },
            8 => match <((KeyspaceId, (FileId, (AppendStream, Vec<u8>))), PayloadIntegrity)>::decode(input) {
                Ok(((keyspace_id, (file_id, (stream, bytes))), payload_integrity)) => {
                    let value = NativeRequest::AppendStream { keyspace_id, file_id, stream, bytes, payload_integrity };
                    proof {
                        assert(whole =~= value.wire() + input.rest());
                        lemma_starts_with_value(value, input.rest());
                    }
                    Ok(value)
                },
                Err(error) => {
                    proof {
                        assert forall|value: NativeRequest, tail: Seq<u8>|
                            value.durable() && #[trigger] (value.wire() + tail) == whole implies false by {
                            match value {
                                NativeRequest::AppendStream { keyspace_id, file_id, stream, bytes, payload_integrity } => {
                                    lemma_starts_with_value(((keyspace_id, (file_id, (stream, bytes))), payload_integrity), tail);
                                },
                                _ => {},
                            }
                        }
                    }
                    Err(error)
                },
            },
            9 => match <(KeyspaceId, (FileId, (AppendStream, u64)))>::decode(input) {
                Ok((keyspace_id, (file_id, (stream, publish_through)))) => {
                    let value = NativeRequest::SubmitAppendPublish { keyspace_id, file_id, stream, publish_through };
                    proof {
                        assert(whole =~= value.wire() + input.rest());
                        lemma_starts_with_value(value, input.rest());
                    }
                    Ok(value)
                },
                Err(error) => {
                    proof {
                        assert forall|value: NativeRequest, tail: Seq<u8>|
                            value.durable() && #[trigger] (value.wire() + tail) == whole implies false by {
                            match value {
                                NativeRequest::SubmitAppendPublish { keyspace_id, file_id, stream, publish_through } => {
                                    lemma_starts_with_value((keyspace_id, (file_id, (stream, publish_through))), tail);
                                },
                                _ => {},
                            }
                        }
                    }
                    Err(error)
                },
            },
            10 => match <(KeyspaceId, (FileId, AppendPublishTicket))>::decode(input) {
                Ok((keyspace_id, (file_id, ticket))) => {
                    let value = NativeRequest::WaitAppendPublish { keyspace_id, file_id, ticket };
                    proof {
                        assert(whole =~= value.wire() + input.rest());
                        lemma_starts_with_value(value, input.rest());
                    }
                    Ok(value)
                },
                Err(error) => {
                    proof {
                        assert forall|value: NativeRequest, tail: Seq<u8>|
                            value.durable() && #[trigger] (value.wire() + tail) == whole implies false by {
                            match value {
                                NativeRequest::WaitAppendPublish { keyspace_id, file_id, ticket } => {
                                    lemma_starts_with_value((keyspace_id, (file_id, ticket)), tail);
                                },
                                _ => {},
                            }
                        }
                    }
                    Err(error)
                },
            },
            11 => match <(KeyspaceId, (FileId, (AppendStream, u64)))>::decode(input) {
                Ok((keyspace_id, (file_id, (stream, publish_through)))) => {
                    let value = NativeRequest::PublishAppendStream { keyspace_id, file_id, stream, publish_through };
                    proof {
                        assert(whole =~= value.wire() + input.rest());
                        lemma_starts_with_value(value, input.rest());
                    }
                    Ok(value)
                },
                Err(error) => {
                    proof {
                        assert forall|value: NativeRequest, tail: Seq<u8>|
                            value.durable() && #[trigger] (value.wire() + tail) == whole implies false by {
                            match value {
                                NativeRequest::PublishAppendStream { keyspace_id, file_id, stream, publish_through } => {
                                    lemma_starts_with_value((keyspace_id, (file_id, (stream, publish_through))), tail);
                                },
                                _ => {},
                            }
                        }
                    }
                    Err(error)
                },
            },
            12 => match <(KeyspaceId, (FileId, AppendStream))>::decode(input) {
                Ok((keyspace_id, (file_id, stream))) => {
                    let value = NativeRequest::ReleaseAppendStream { keyspace_id, file_id, stream };
                    proof {
                        assert(whole =~= value.wire() + input.rest());
                        lemma_starts_with_value(value, input.rest());
                    }
                    Ok(value)
                },
                Err(error) => {
                    proof {
                        assert forall|value: NativeRequest, tail: Seq<u8>|
                            value.durable() && #[trigger] (value.wire() + tail) == whole implies false by {
                            match value {
                                NativeRequest::ReleaseAppendStream { keyspace_id, file_id, stream } => {
                                    lemma_starts_with_value((keyspace_id, (file_id, stream)), tail);
                                },
                                _ => {},
                            }
                        }
                    }
                    Err(error)
                },
            },
            13 => match <(KeyspaceId, (FileId, AppendStream))>::decode(input) {
                Ok((keyspace_id, (file_id, stream))) => {
                    let value = NativeRequest::AbortAppendStream { keyspace_id, file_id, stream };
                    proof {
                        assert(whole =~= value.wire() + input.rest());
                        lemma_starts_with_value(value, input.rest());
                    }
                    Ok(value)
                },
                Err(error) => {
                    proof {
                        assert forall|value: NativeRequest, tail: Seq<u8>|
                            value.durable() && #[trigger] (value.wire() + tail) == whole implies false by {
                            match value {
                                NativeRequest::AbortAppendStream { keyspace_id, file_id, stream } => {
                                    lemma_starts_with_value((keyspace_id, (file_id, stream)), tail);
                                },
                                _ => {},
                            }
                        }
                    }
                    Err(error)
                },
            },
            14 => match <(KeyspaceId, FileId)>::decode(input) {
                Ok((keyspace_id, file_id)) => {
                    let value = NativeRequest::Flush { keyspace_id, file_id };
                    proof {
                        assert(whole =~= value.wire() + input.rest());
                        lemma_starts_with_value(value, input.rest());
                    }
                    Ok(value)
                },
                Err(error) => {
                    proof {
                        assert forall|value: NativeRequest, tail: Seq<u8>|
                            value.durable() && #[trigger] (value.wire() + tail) == whole implies false by {
                            match value {
                                NativeRequest::Flush { keyspace_id, file_id } => {
                                    lemma_starts_with_value((keyspace_id, file_id), tail);
                                },
                                _ => {},
                            }
                        }
                    }
                    Err(error)
                },
            },
            15 => match KeyspaceId::decode(input) {
                Ok(keyspace_id) => {
                    let value = NativeRequest::CheckpointKeyspace { keyspace_id };
                    proof {
                        assert(whole =~= value.wire() + input.rest());
                        lemma_starts_with_value(value, input.rest());
                    }
                    Ok(value)
                },
                Err(error) => {
                    proof {
                        assert forall|value: NativeRequest, tail: Seq<u8>|
                            value.durable() && #[trigger] (value.wire() + tail) == whole implies false by {
                            match value {
                                NativeRequest::CheckpointKeyspace { keyspace_id } => {
                                    lemma_starts_with_value(keyspace_id, tail);
                                },
                                _ => {},
                            }
                        }
                    }
                    Err(error)
                },
            },
            16 => match <(KeyspaceId, SnapshotKeyspaceRequest)>::decode(input) {
                Ok((source, request)) => {
                    let value = NativeRequest::SnapshotKeyspace { source, request };
                    proof {
                        assert(whole =~= value.wire() + input.rest());
                        lemma_starts_with_value(value, input.rest());
                    }
                    Ok(value)
                },
                Err(error) => {
                    proof {
                        assert forall|value: NativeRequest, tail: Seq<u8>|
                            value.durable() && #[trigger] (value.wire() + tail) == whole implies false by {
                            match value {
                                NativeRequest::SnapshotKeyspace { source, request } => {
                                    lemma_starts_with_value((source, request), tail);
                                },
                                _ => {},
                            }
                        }
                    }
                    Err(error)
                },
            },
            17 => match <(KeyspaceId, RestorePoint)>::decode(input) {
                Ok((source, point)) => {
                    let value = NativeRequest::RestoreKeyspace { source, point };
                    proof {
                        assert(whole =~= value.wire() + input.rest());
                        lemma_starts_with_value(value, input.rest());
                    }
                    Ok(value)
                },
                Err(error) => {
                    proof {
                        assert forall|value: NativeRequest, tail: Seq<u8>|
                            value.durable() && #[trigger] (value.wire() + tail) == whole implies false by {
                            match value {
                                NativeRequest::RestoreKeyspace { source, point } => {
                                    lemma_starts_with_value((source, point), tail);
                                },
                                _ => {},
                            }
                        }
                    }
                    Err(error)
                },
            },
            _ => Err(durable_codec_error("invalid native request tag")),
        }
    }
}

/// An answer of a native file service.
#[derive(Clone, Debug, PartialEq, Eq)]
pub enum NativeResponse {
    KeyspaceCreated(KeyspaceId),
    KeyspaceInfo(KeyspaceInfo),
    FileCreated(FileId),
    FileInfo(FileInfo),
    Read(ReadResponse),
    FileBatchCommitted(FileWriteCommit),
    AppendStreamOpened(AppendStream),
    AppendTicket(AppendTicket),
    AppendPublishSubmitted(AppendPublishTicket),
    AppendPublished(AppendPublishCommit),
    AppendReleased,
    AppendAborted,
    Flush(FlushResult),
    KeyspaceCheckpointed(CheckpointId),
    KeyspaceSnapshotted(KeyspaceId),
    KeyspaceRestored(KeyspaceId),
}

impl NativeResponse {
    /// The byte that tells the variants apart.
    pub open spec fn tag(&self) -> u8 {
        match self {
            NativeResponse::KeyspaceCreated(_) => 1,
            NativeResponse::KeyspaceInfo(_) => 2,
            NativeResponse::FileCreated(_) => 3,
            NativeResponse::FileInfo(_) => 4,
            NativeResponse::Read(_) => 5,
            NativeResponse::FileBatchCommitted(_) => 6,
            NativeResponse::AppendStreamOpened(_) => 7,
            NativeResponse::AppendTicket(_) => 8,
            NativeResponse::AppendPublishSubmitted(_) => 9,
            NativeResponse::AppendPublished(_) => 10,
            NativeResponse::AppendReleased => 11,
            NativeResponse::AppendAborted => 12,
            NativeResponse::Flush(_) => 13,
            NativeResponse::KeyspaceCheckpointed(_) => 14,
            NativeResponse::KeyspaceSnapshotted(_) => 15,
            NativeResponse::KeyspaceRestored(_) => 16,
        }
    }

    /// The bytes behind the tag.
    pub open spec fn body(&self) -> Seq<u8> {
        match *self {
            NativeResponse::KeyspaceCreated(keyspace_id) => keyspace_id.wire(),
            NativeResponse::KeyspaceInfo(info) => info.wire(),
            NativeResponse::FileCreated(file_id) => file_id.wire(),
            NativeResponse::FileInfo(info) => info.wire(),
            NativeResponse::Read(read) => read.wire(),
            NativeResponse::FileBatchCommitted(commit) => commit.wire(),
            NativeResponse::AppendStreamOpened(stream) => stream.wire(),
            NativeResponse::AppendTicket(ticket) => ticket.wire(),
            NativeResponse::AppendPublishSubmitted(ticket) => ticket.wire(),
            NativeResponse::AppendPublished(commit) => commit.wire(),
            NativeResponse::AppendReleased => seq![],
            NativeResponse::AppendAborted => seq![],
            NativeResponse::Flush(flush) => flush.wire(),
            NativeResponse::KeyspaceCheckpointed(checkpoint_id) => checkpoint_id.wire(),
            NativeResponse::KeyspaceSnapshotted(keyspace_id) => keyspace_id.wire(),
            NativeResponse::KeyspaceRestored(keyspace_id) => keyspace_id.wire(),
        }
    }
}

impl DurableEncode for NativeResponse {
    #[verifier::opaque]
    open spec fn wire(&self) -> Seq<u8> {
        seq![self.tag()] + self.body()
    }

    open spec fn durable(&self) -> bool {
        match *self {
            NativeResponse::KeyspaceCreated(keyspace_id) => keyspace_id.durable(),
            NativeResponse::KeyspaceInfo(info) => info.durable(),
            NativeResponse::FileCreated(file_id) => file_id.durable(),
            NativeResponse::FileInfo(info) => info.durable(),
            NativeResponse::Read(read) => read.durable(),
            NativeResponse::FileBatchCommitted(commit) => commit.durable(),
            NativeResponse::AppendStreamOpened(stream) => stream.durable(),
            NativeResponse::AppendTicket(ticket) => ticket.durable(),
            NativeResponse::AppendPublishSubmitted(ticket) => ticket.durable(),
            NativeResponse::AppendPublished(commit) => commit.durable(),
            NativeResponse::AppendReleased => true,
            NativeResponse::AppendAborted => true,
            NativeResponse::Flush(flush) => flush.durable(),
            NativeResponse::KeyspaceCheckpointed(checkpoint_id) => checkpoint_id.durable(),
            NativeResponse::KeyspaceSnapshotted(keyspace_id) => keyspace_id.durable(),
            NativeResponse::KeyspaceRestored(keyspace_id) => keyspace_id.durable(),
        }
    }

    fn encode(&self, out: &mut DurableEncoder) -> (result: Result<(), StorageError>) {
        reveal(<NativeResponse as DurableEncode>::wire);
        match self {
            NativeResponse::KeyspaceCreated(keyspace_id) => {
                out.put_u8(1);
                keyspace_id.encode(out)?;
            },
            NativeResponse::KeyspaceInfo(info) => {
                out.put_u8(2);
                info.encode(out)?;
            },
            NativeResponse::FileCreated(file_id) => {
                out.put_u8(3);
                file_id.encode(out)?;
            },
            NativeResponse::FileInfo(info) => {
                out.put_u8(4);
                info.encode(out)?;
            },
            NativeResponse::Read(read) => {
                out.put_u8(5);
                read.encode(out)?;
            },
            NativeResponse::FileBatchCommitted(commit) => {
                out.put_u8(6);
                commit.encode(out)?;
            },
            NativeResponse::AppendStreamOpened(stream) => {
                out.put_u8(7);
                stream.encode(out)?;
            },
            NativeResponse::AppendTicket(ticket) => {
                out.put_u8(8);
                ticket.encode(out)?;
            },
            NativeResponse::AppendPublishSubmitted(ticket) => {
                out.put_u8(9);
                ticket.encode(out)?;
            },
            NativeResponse::AppendPublished(commit) => {
                out.put_u8(10);
                commit.encode(out)?;
            },
            NativeResponse::AppendReleased => {
                out.put_u8(11);
            },
            NativeResponse::AppendAborted => {
                out.put_u8(12);
            },
            NativeResponse::Flush(flush) => {
                out.put_u8(13);
                flush.encode(out)?;
            },
            NativeResponse::KeyspaceCheckpointed(checkpoint_id) => {
                out.put_u8(14);
                checkpoint_id.encode(out)?;
            },
            NativeResponse::KeyspaceSnapshotted(keyspace_id) => {
                out.put_u8(15);
                keyspace_id.encode(out)?;
            },
            NativeResponse::KeyspaceRestored(keyspace_id) => {
                out.put_u8(16);
                keyspace_id.encode(out)?;
            },
        }
        assert(out@ =~= old(out)@ + self.wire());
        Ok(())
    }
}

impl DurableCodec for NativeResponse {
    open spec fn same(&self, other: &NativeResponse) -> bool {
        match (*self, *other) {
            (NativeResponse::KeyspaceCreated(keyspace_id), NativeResponse::KeyspaceCreated(other_keyspace_id)) => {
                keyspace_id.same(&other_keyspace_id)
            },
            (NativeResponse::KeyspaceInfo(info), NativeResponse::KeyspaceInfo(other_info)) => {
                info.same(&other_info)
            },
            (NativeResponse::FileCreated(file_id), NativeResponse::FileCreated(other_file_id)) => {
                file_id.same(&other_file_id)
            },
            (NativeResponse::FileInfo(info), NativeResponse::FileInfo(other_info)) => {
                info.same(&other_info)
            },
            (NativeResponse::Read(read), NativeResponse::Read(other_read)) => {
                read.same(&other_read)
            },
            (NativeResponse::FileBatchCommitted(commit), NativeResponse::FileBatchCommitted(other_commit)) => {
                commit.same(&other_commit)
            },
            (NativeResponse::AppendStreamOpened(stream), NativeResponse::AppendStreamOpened(other_stream)) => {
                stream.same(&other_stream)
            },
            (NativeResponse::AppendTicket(ticket), NativeResponse::AppendTicket(other_ticket)) => {
                ticket.same(&other_ticket)
            },
            (NativeResponse::AppendPublishSubmitted(ticket), NativeResponse::AppendPublishSubmitted(other_ticket)) => {
                ticket.same(&other_ticket)
            },
            (NativeResponse::AppendPublished(commit), NativeResponse::AppendPublished(other_commit)) => {
                commit.same(&other_commit)
            },
            (NativeResponse::AppendReleased, NativeResponse::AppendReleased) => true,
            (NativeResponse::AppendAborted, NativeResponse::AppendAborted) => true,
            (NativeResponse::Flush(flush), NativeResponse::Flush(other_flush)) => {
                flush.same(&other_flush)
            },
            (NativeResponse::KeyspaceCheckpointed(checkpoint_id), NativeResponse::KeyspaceCheckpointed(other_checkpoint_id)) => {
                checkpoint_id.same(&other_checkpoint_id)
            },
            (NativeResponse::KeyspaceSnapshotted(keyspace_id), NativeResponse::KeyspaceSnapshotted(other_keyspace_id)) => {
                keyspace_id.same(&other_keyspace_id)
            },
            (NativeResponse::KeyspaceRestored(keyspace_id), NativeResponse::KeyspaceRestored(other_keyspace_id)) => {
                keyspace_id.same(&other_keyspace_id)
            },
            _ => false,
        }
    }

    proof fn lemma_unambiguous(a: &NativeResponse, b: &NativeResponse, a_tail: Seq<u8>, b_tail: Seq<u8>) {
        reveal(<NativeResponse as DurableEncode>::wire);
        lemma_drop_tag(a.tag(), a.body(), a_tail);
        lemma_drop_tag(b.tag(), b.body(), b_tail);
        match (*a, *b) {
            (NativeResponse::KeyspaceCreated(keyspace_id), NativeResponse::KeyspaceCreated(b_keyspace_id)) => {
                KeyspaceId::lemma_unambiguous(&keyspace_id, &b_keyspace_id, a_tail, b_tail);
            },
            (NativeResponse::KeyspaceInfo(info), NativeResponse::KeyspaceInfo(b_info)) => {
                KeyspaceInfo::lemma_unambiguous(&info, &b_info, a_tail, b_tail);
            },
            (NativeResponse::FileCreated(file_id), NativeResponse::FileCreated(b_file_id)) => {
                FileId::lemma_unambiguous(&file_id, &b_file_id, a_tail, b_tail);
            },
            (NativeResponse::FileInfo(info), NativeResponse::FileInfo(b_info)) => {
                FileInfo::lemma_unambiguous(&info, &b_info, a_tail, b_tail);
            },
            (NativeResponse::Read(read), NativeResponse::Read(b_read)) => {
                ReadResponse::lemma_unambiguous(&read, &b_read, a_tail, b_tail);
            },
            (NativeResponse::FileBatchCommitted(commit), NativeResponse::FileBatchCommitted(b_commit)) => {
                FileWriteCommit::lemma_unambiguous(&commit, &b_commit, a_tail, b_tail);
            },
            (NativeResponse::AppendStreamOpened(stream), NativeResponse::AppendStreamOpened(b_stream)) => {
                AppendStream::lemma_unambiguous(&stream, &b_stream, a_tail, b_tail);
            },
            (NativeResponse::AppendTicket(ticket), NativeResponse::AppendTicket(b_ticket)) => {
                AppendTicket::lemma_unambiguous(&ticket, &b_ticket, a_tail, b_tail);
            },
            (NativeResponse::AppendPublishSubmitted(ticket), NativeResponse::AppendPublishSubmitted(b_ticket)) => {
                AppendPublishTicket::lemma_unambiguous(&ticket, &b_ticket, a_tail, b_tail);
            },
            (NativeResponse::AppendPublished(commit), NativeResponse::AppendPublished(b_commit)) => {
                AppendPublishCommit::lemma_unambiguous(&commit, &b_commit, a_tail, b_tail);
            },
            (NativeResponse::AppendReleased, NativeResponse::AppendReleased) => {
                assert(a.body() + a_tail =~= a_tail);
                assert(b.body() + b_tail =~= b_tail);
            },
            (NativeResponse::AppendAborted, NativeResponse::AppendAborted) => {
                assert(a.body() + a_tail =~= a_tail);
                assert(b.body() + b_tail =~= b_tail);
            },
            (NativeResponse::Flush(flush), NativeResponse::Flush(b_flush)) => {
                FlushResult::lemma_unambiguous(&flush, &b_flush, a_tail, b_tail);
            },
            (NativeResponse::KeyspaceCheckpointed(checkpoint_id), NativeResponse::KeyspaceCheckpointed(b_checkpoint_id)) => {
                CheckpointId::lemma_unambiguous(&checkpoint_id, &b_checkpoint_id, a_tail, b_tail);
            },
            (NativeResponse::KeyspaceSnapshotted(keyspace_id), NativeResponse::KeyspaceSnapshotted(b_keyspace_id)) => {
                KeyspaceId::lemma_unambiguous(&keyspace_id, &b_keyspace_id, a_tail, b_tail);
            },
            (NativeResponse::KeyspaceRestored(keyspace_id), NativeResponse::KeyspaceRestored(b_keyspace_id)) => {
                KeyspaceId::lemma_unambiguous(&keyspace_id, &b_keyspace_id, a_tail, b_tail);
            },
            _ => {},
        }
    }

    #[verifier::rlimit(40)]
    fn decode(input: &mut DurableDecoder<'_>) -> (result: Result<NativeResponse, StorageError>) {
        reveal(<NativeResponse as DurableEncode>::wire);
        let ghost whole = input.rest();
        let tag: u8 = match input.u8() {
            Ok(tag) => tag,
            Err(error) => {
                proof {
                    assert forall|value: NativeResponse, tail: Seq<u8>| #[trigger]
                        (value.wire() + tail) == whole implies false by {
                        assert((value.wire() + tail).len() >= 1);
                    }
                }
                return Err(error);
            },
        };
        let ghost rest = input.rest();
        proof {
            assert forall|value: NativeResponse, tail: Seq<u8>| #[trigger]
                (value.wire() + tail) == whole implies value.tag() == tag && rest == value.body()
                + tail by {
                lemma_drop_tag(value.tag(), value.body(), tail);
                assert(whole.skip(1) =~= rest);
            }
        }
        match tag {
            1 => match KeyspaceId::decode(input) {
                Ok(keyspace_id) => {
                    let value = NativeResponse::KeyspaceCreated(keyspace_id);
                    proof {
                        assert(whole =~= value.wire() + input.rest());
                        lemma_starts_with_value(value, input.rest());
                    }
                    Ok(value)
                },
                Err(error) => {
                    proof {
                        assert forall|value: NativeResponse, tail: Seq<u8>|
                            value.durable() && #[trigger] (value.wire() + tail) == whole implies false by {
                            match value {
                                NativeResponse::KeyspaceCreated(keyspace_id) => {
                                    lemma_starts_with_value(keyspace_id, tail);
                                },
                                _ => {},
                            }
                        }
                    }
                    Err(error)
                },
            },
            2 => match KeyspaceInfo::decode(input) {
                Ok(info) => {
                    let value = NativeResponse::KeyspaceInfo(info);
                    proof {
                        assert(whole =~= value.wire() + input.rest());
                        lemma_starts_with_value(value, input.rest());
                    }
                    Ok(value)
                },
                Err(error) => {
                    proof {
                        assert forall|value: NativeResponse, tail: Seq<u8>|
                            value.durable() && #[trigger] (value.wire() + tail) == whole implies false by {
                            match value {
                                NativeResponse::KeyspaceInfo(info) => {
                                    lemma_starts_with_value(info, tail);
                                },
                                _ => {},
                            }
                        }
                    }
                    Err(error)
                },
            },
            3 => match FileId::decode(input) {
                Ok(file_id) => {
                    let value = NativeResponse::FileCreated(file_id);
                    proof {
                        assert(whole =~= value.wire() + input.rest());
                        lemma_starts_with_value(value, input.rest());
                    }
                    Ok(value)
                },
                Err(error) => {
                    proof {
                        assert forall|value: NativeResponse, tail: Seq<u8>|
                            value.durable() && #[trigger] (value.wire() + tail) == whole implies false by {
                            match value {
                                NativeResponse::FileCreated(file_id) => {
                                    lemma_starts_with_value(file_id, tail);
                                },
                                _ => {},
                            }
                        }
                    }
                    Err(error)
                },
            },
            4 => match FileInfo::decode(input) {
                Ok(info) => {
                    let value = NativeResponse::FileInfo(info);
                    proof {
                        assert(whole =~= value.wire() + input.rest());
                        lemma_starts_with_value(value, input.rest());
                    }
                    Ok(value)
                },
                Err(error) => {
                    proof {
                        assert forall|value: NativeResponse, tail: Seq<u8>|
                            value.durable() && #[trigger] (value.wire() + tail) == whole implies false by {
                            match value {
                                NativeResponse::FileInfo(info) => {
                                    lemma_starts_with_value(info, tail);
                                },
                                _ => {},
                            }
                        }
                    }
                    Err(error)
                },
            },
            5 => match ReadResponse::decode(input) {
                Ok(read) => {
                    let value = NativeResponse::Read(read);
                    proof {
                        assert(whole =~= value.wire() + input.rest());
                        lemma_starts_with_value(value, input.rest());
                    }
                    Ok(value)
                },
                Err(error) => {
                    proof {
                        assert forall|value: NativeResponse, tail: Seq<u8>|
                            value.durable() && #[trigger] (value.wire() + tail) == whole implies false by {
                            match value {
                                NativeResponse::Read(read) => {
                                    lemma_starts_with_value(read, tail);
                                },
                                _ => {},
                            }
                        }
                    }
                    Err(error)
                },
            },
            6 => match FileWriteCommit::decode(input) {
                Ok(commit) => {
                    let value = NativeResponse::FileBatchCommitted(commit);
                    proof {
                        assert(whole =~= value.wire() + input.rest());
                        lemma_starts_with_value(value, input.rest());
                    }
                    Ok(value)
                },
                Err(error) => {
                    proof {
                        assert forall|value: NativeResponse, tail: Seq<u8>|
                            value.durable() && #[trigger] (value.wire() + tail) == whole implies false by {
                            match value {
                                NativeResponse::FileBatchCommitted(commit) => {
                                    lemma_starts_with_value(commit, tail);
                                },
                                _ => {},
                            }
                        }
                    }
                    Err(error)
                },
            },
            7 => match AppendStream::decode(input) {
                Ok(stream) => {
                    let value = NativeResponse::AppendStreamOpened(stream);
                    proof {
                        assert(whole =~= value.wire() + input.rest());
                        lemma_starts_with_value(value, input.rest());
                    }
                    Ok(value)
                },
                Err(error) => {
                    proof {
                        assert forall|value: NativeResponse, tail: Seq<u8>|
                            value.durable() && #[trigger] (value.wire() + tail) == whole implies false by {
                            match value {
                                NativeResponse::AppendStreamOpened(stream) => {
                                    lemma_starts_with_value(stream, tail);
                                },
                                _ => {},
                            }
                        }
                    }
                    Err(error)
                },
            },
            8 => match AppendTicket::decode(input) {
                Ok(ticket) => {
                    let value = NativeResponse::AppendTicket(ticket);
                    proof {
                        assert(whole =~= value.wire() + input.rest());
                        lemma_starts_with_value(value, input.rest());
                    }
                    Ok(value)
                },
                Err(error) => {
                    proof {
                        assert forall|value: NativeResponse, tail: Seq<u8>|
                            value.durable() && #[trigger] (value.wire() + tail) == whole implies false by {
                            match value {
                                NativeResponse::AppendTicket(ticket) => {
                                    lemma_starts_with_value(ticket, tail);
                                },
                                _ => {},
                            }
                        }
                    }
                    Err(error)
                },
            },
            9 => match AppendPublishTicket::decode(input) {
                Ok(ticket) => {
                    let value = NativeResponse::AppendPublishSubmitted(ticket);
                    proof {
                        assert(whole =~= value.wire() + input.rest());
                        lemma_starts_with_value(value, input.rest());
                    }
                    Ok(value)
                },
                Err(error) => {
                    proof {
                        assert forall|value: NativeResponse, tail: Seq<u8>|
                            value.durable() && #[trigger] (value.wire() + tail) == whole implies false by {
                            match value {
                                NativeResponse::AppendPublishSubmitted(ticket) => {
                                    lemma_starts_with_value(ticket, tail);
                                },
                                _ => {},
                            }
                        }
                    }
                    Err(error)
                },
            },
            10 => match AppendPublishCommit::decode(input) {
                Ok(commit) => {
                    let value = NativeResponse::AppendPublished(commit);
                    proof {
                        assert(whole =~= value.wire() + input.rest());
                        lemma_starts_with_value(value, input.rest());
                    }
                    Ok(value)
                },
                Err(error) => {
                    proof {
                        assert forall|value: NativeResponse, tail: Seq<u8>|
                            value.durable() && #[trigger] (value.wire() + tail) == whole implies false by {
                            match value {
                                NativeResponse::AppendPublished(commit) => {
                                    lemma_starts_with_value(commit, tail);
                                },
                                _ => {},
                            }
                        }
                    }
                    Err(error)
                },
            },
            11 => {
                let value = NativeResponse::AppendReleased;
                proof {
                    assert(whole =~= value.wire() + input.rest());
                    lemma_starts_with_value(value, input.rest());
                }
                Ok(value)
            },
            12 => {
                let value = NativeResponse::AppendAborted;
                proof {
                    assert(whole =~= value.wire() + input.rest());
                    lemma_starts_with_value(value, input.rest());
                }
                Ok(value)
            },
            13 => match FlushResult::decode(input) {
                Ok(flush) => {
                    let value = NativeResponse::Flush(flush);
                    proof {
                        assert(whole =~= value.wire() + input.rest());
                        lemma_starts_with_value(value, input.rest());
                    }
                    Ok(value)
                },
                Err(error) => {
                    proof {
                        assert forall|value: NativeResponse, tail: Seq<u8>|
                            value.durable() && #[trigger] (value.wire() + tail) == whole implies false by {
                            match value {
                                NativeResponse::Flush(flush) => {
                                    lemma_starts_with_value(flush, tail);
                                },
                                _ => {},
                            }
                        }
                    }
                    Err(error)
                },
            },
            14 => match CheckpointId::decode(input) {
                Ok(checkpoint_id) => {
                    let value = NativeResponse::KeyspaceCheckpointed(checkpoint_id);
                    proof {
                        assert(whole =~= value.wire() + input.rest());
                        lemma_starts_with_value(value, input.rest());
                    }
                    Ok(value)
                },
                Err(error) => {
                    proof {
                        assert forall|value: NativeResponse, tail: Seq<u8>|
                            value.durable() && #[trigger] (value.wire() + tail) == whole implies false by {
                            match value {
                                NativeResponse::KeyspaceCheckpointed(checkpoint_id) => {
                                    lemma_starts_with_value(checkpoint_id, tail);
                                },
                                _ => {},
                            }
                        }
                    }
                    Err(error)
                },
            },
            15 => match KeyspaceId::decode(input) {
                Ok(keyspace_id) => {
                    let value = NativeResponse::KeyspaceSnapshotted(keyspace_id);
                    proof {
                        assert(whole =~= value.wire() + input.rest());
                        lemma_starts_with_value(value, input.rest());
                    }
                    Ok(value)
                },
                Err(error) => {
                    proof {
                        assert forall|value: NativeResponse, tail: Seq<u8>|
                            value.durable() && #[trigger] (value.wire() + tail) == whole implies false by {
                            match value {
                                NativeResponse::KeyspaceSnapshotted(keyspace_id) => {
                                    lemma_starts_with_value(keyspace_id, tail);
                                },
                                _ => {},
                            }
                        }
                    }
                    Err(error)
                },
            },
            16 => match KeyspaceId::decode(input) {
                Ok(keyspace_id) => {
                    let value = NativeResponse::KeyspaceRestored(keyspace_id);
                    proof {
                        assert(whole =~= value.wire() + input.rest());
                        lemma_starts_with_value(value, input.rest());
                    }
                    Ok(value)
                },
                Err(error) => {
                    proof {
                        assert forall|value: NativeResponse, tail: Seq<u8>|
                            value.durable() && #[trigger] (value.wire() + tail) == whole implies false by {
                            match value {
                                NativeResponse::KeyspaceRestored(keyspace_id) => {
                                    lemma_starts_with_value(keyspace_id, tail);
                                },
                                _ => {},
                            }
                        }
                    }
                    Err(error)
                },
            },
            _ => Err(durable_codec_error("invalid native response tag")),
        }
    }
}

/// A native request with its sender and deadline.
#[derive(Clone, Debug, PartialEq, Eq)]
pub struct NativeRequestEnvelope {
    pub request_id: RequestId,
    pub client_epoch: ClientEpoch,
    pub deadline: Option<LogicalDeadline>,
    pub request: NativeRequest,
}

impl DurableEncode for NativeRequestEnvelope {
    #[verifier::opaque]
    open spec fn wire(&self) -> Seq<u8> {
        self.fields().wire()
    }

    open spec fn durable(&self) -> bool {
        self.fields().durable()
    }

    fn encode(&self, out: &mut DurableEncoder) -> (result: Result<(), StorageError>) {
        reveal(pair_wire);
        reveal(<NativeRequestEnvelope as DurableEncode>::wire);
        (&self.request_id, (&self.client_epoch, (&self.deadline, &self.request))).encode(out)
    }
}

impl NativeRequestEnvelope {
    pub open spec fn fields(self) -> (RequestId, (ClientEpoch, (Option<LogicalDeadline>, NativeRequest))) {
        (self.request_id, (self.client_epoch, (self.deadline, self.request)))
    }
}

impl DurableCodec for NativeRequestEnvelope {
    open spec fn same(&self, other: &NativeRequestEnvelope) -> bool {
        self.fields().same(&other.fields())
    }

    proof fn lemma_unambiguous(a: &NativeRequestEnvelope, b: &NativeRequestEnvelope, a_tail: Seq<u8>, b_tail: Seq<u8>) {
        reveal(<NativeRequestEnvelope as DurableEncode>::wire);
        <(RequestId, (ClientEpoch, (Option<LogicalDeadline>, NativeRequest)))>::lemma_unambiguous(&a.fields(), &b.fields(), a_tail, b_tail);
        assert(a.same(b));
    }

    fn decode(input: &mut DurableDecoder<'_>) -> (result: Result<NativeRequestEnvelope, StorageError>) {
        reveal(<NativeRequestEnvelope as DurableEncode>::wire);
        let ghost whole = input.rest();
        match <(RequestId, (ClientEpoch, (Option<LogicalDeadline>, NativeRequest)))>::decode(input) {
            Ok((request_id, (client_epoch, (deadline, request)))) => {
                let value = NativeRequestEnvelope { request_id, client_epoch, deadline, request };
                proof {
                    lemma_starts_with_value(value, input.rest());
                }
                Ok(value)
            },
            Err(error) => {
                proof {
                    assert forall|value: NativeRequestEnvelope, tail: Seq<u8>|
                        value.durable() && #[trigger] (value.wire() + tail) == whole implies false by {
                        lemma_starts_with_value(value.fields(), tail);
                    }
                }
                Err(error)
            },
        }
    }
}

/// A native answer with the request it answers.
#[derive(Clone, Debug, PartialEq, Eq)]
pub struct NativeResponseEnvelope {
    pub request_id: RequestId,
    pub response: NativeResponse,
}

impl DurableEncode for NativeResponseEnvelope {
    #[verifier::opaque]
    open spec fn wire(&self) -> Seq<u8> {
        self.fields().wire()
    }

    open spec fn durable(&self) -> bool {
        self.fields().durable()
    }

    fn encode(&self, out: &mut DurableEncoder) -> (result: Result<(), StorageError>) {
        reveal(pair_wire);
        reveal(<NativeResponseEnvelope as DurableEncode>::wire);
        (&self.request_id, &self.response).encode(out)
    }
}

impl NativeResponseEnvelope {
    pub open spec fn fields(self) -> (RequestId, NativeResponse) {
        (self.request_id, self.response)
    }
}

impl DurableCodec for NativeResponseEnvelope {
    open spec fn same(&self, other: &NativeResponseEnvelope) -> bool {
        self.fields().same(&other.fields())
    }

    proof fn lemma_unambiguous(a: &NativeResponseEnvelope, b: &NativeResponseEnvelope, a_tail: Seq<u8>, b_tail: Seq<u8>) {
        reveal(<NativeResponseEnvelope as DurableEncode>::wire);
        <(RequestId, NativeResponse)>::lemma_unambiguous(&a.fields(), &b.fields(), a_tail, b_tail);
        assert(a.same(b));
    }

    fn decode(input: &mut DurableDecoder<'_>) -> (result: Result<NativeResponseEnvelope, StorageError>) {
        reveal(<NativeResponseEnvelope as DurableEncode>::wire);
        let ghost whole = input.rest();
        match <(RequestId, NativeResponse)>::decode(input) {
            Ok((request_id, response)) => {
                let value = NativeResponseEnvelope { request_id, response };
                proof {
                    lemma_starts_with_value(value, input.rest());
                }
                Ok(value)
            },
            Err(error) => {
                proof {
                    assert forall|value: NativeResponseEnvelope, tail: Seq<u8>|
                        value.durable() && #[trigger] (value.wire() + tail) == whole implies false by {
                        lemma_starts_with_value(value.fields(), tail);
                    }
                }
                Err(error)
            },
        }
    }
}

/// A request as it goes over the wire.
#[derive(Clone, Debug, PartialEq, Eq)]
pub struct RemoteWireRequest<T> {
    pub incarnation: ServerIncarnation,
    pub envelope: T,
}

impl<T: DurableEncode> DurableEncode for RemoteWireRequest<T> {
    open spec fn wire(&self) -> Seq<u8> {
        self.fields().wire()
    }

    open spec fn durable(&self) -> bool {
        self.fields().durable()
    }

    fn encode(&self, out: &mut DurableEncoder) -> (result: Result<(), StorageError>) {
        reveal(pair_wire);
        (&self.incarnation, &self.envelope).encode(out)
    }
}

impl<T> RemoteWireRequest<T> {
    pub open spec fn fields(self) -> (ServerIncarnation, T) {
        (self.incarnation, self.envelope)
    }
}

impl<T: DurableCodec> DurableCodec for RemoteWireRequest<T> {
    open spec fn same(&self, other: &RemoteWireRequest<T>) -> bool {
        self.fields().same(&other.fields())
    }

    proof fn lemma_unambiguous(a: &RemoteWireRequest<T>, b: &RemoteWireRequest<T>, a_tail: Seq<u8>, b_tail: Seq<u8>) {
        <(ServerIncarnation, T)>::lemma_unambiguous(&a.fields(), &b.fields(), a_tail, b_tail);
        assert(a.same(b));
    }

    fn decode(input: &mut DurableDecoder<'_>) -> (result: Result<RemoteWireRequest<T>, StorageError>) {
        let ghost whole = input.rest();
        match <(ServerIncarnation, T)>::decode(input) {
            Ok((incarnation, envelope)) => {
                let value = RemoteWireRequest { incarnation, envelope };
                proof {
                    lemma_starts_with_value(value, input.rest());
                }
                Ok(value)
            },
            Err(error) => {
                proof {
                    assert forall|value: RemoteWireRequest<T>, tail: Seq<u8>|
                        value.durable() && #[trigger] (value.wire() + tail) == whole implies false by {
                        lemma_starts_with_value(value.fields(), tail);
                    }
                }
                Err(error)
            },
        }
    }
}

/// An answer as it comes over the wire.
#[derive(Clone, Debug, PartialEq, Eq)]
pub enum RemoteWireReply<T> {
    Accepted { incarnation: ServerIncarnation, envelope: T },
    Refused { incarnation: ServerIncarnation, reason: String },
}

impl<T: DurableEncode> RemoteWireReply<T> {
    /// The byte that tells the variants apart.
    pub open spec fn tag(&self) -> u8 {
        match self {
            RemoteWireReply::Accepted { .. } => 1,
            RemoteWireReply::Refused { .. } => 2,
        }
    }

    /// The bytes behind the tag.
    pub open spec fn body(&self) -> Seq<u8> {
        match *self {
            RemoteWireReply::Accepted { incarnation, envelope } => (incarnation, envelope).wire(),
            RemoteWireReply::Refused { incarnation, reason } => (incarnation, reason).wire(),
        }
    }
}

impl<T: DurableEncode> DurableEncode for RemoteWireReply<T> {
    open spec fn wire(&self) -> Seq<u8> {
        seq![self.tag()] + self.body()
    }

    open spec fn durable(&self) -> bool {
        match *self {
            RemoteWireReply::Accepted { incarnation, envelope } => (incarnation, envelope).durable(),
            RemoteWireReply::Refused { incarnation, reason } => (incarnation, reason).durable(),
        }
    }

    fn encode(&self, out: &mut DurableEncoder) -> (result: Result<(), StorageError>) {
        reveal(pair_wire);
        match self {
            RemoteWireReply::Accepted { incarnation, envelope } => {
                out.put_u8(1);
                (incarnation, envelope).encode(out)?;
            },
            RemoteWireReply::Refused { incarnation, reason } => {
                out.put_u8(2);
                (incarnation, reason).encode(out)?;
            },
        }
        assert(out@ =~= old(out)@ + self.wire());
        Ok(())
    }
}

impl<T: DurableCodec> DurableCodec for RemoteWireReply<T> {
    open spec fn same(&self, other: &RemoteWireReply<T>) -> bool {
        match (*self, *other) {
            (RemoteWireReply::Accepted { incarnation, envelope }, RemoteWireReply::Accepted { incarnation: other_incarnation, envelope: other_envelope }) => {
                (incarnation, envelope).same(&(other_incarnation, other_envelope))
            },
            (RemoteWireReply::Refused { incarnation, reason }, RemoteWireReply::Refused { incarnation: other_incarnation, reason: other_reason }) => {
                (incarnation, reason).same(&(other_incarnation, other_reason))
            },
            _ => false,
        }
    }

    proof fn lemma_unambiguous(a: &RemoteWireReply<T>, b: &RemoteWireReply<T>, a_tail: Seq<u8>, b_tail: Seq<u8>) {
        lemma_drop_tag(a.tag(), a.body(), a_tail);
        lemma_drop_tag(b.tag(), b.body(), b_tail);
        match (*a, *b) {
            (RemoteWireReply::Accepted { incarnation, envelope }, RemoteWireReply::Accepted { incarnation: b_incarnation, envelope: b_envelope }) => {
                <(ServerIncarnation, T)>::lemma_unambiguous(&(incarnation, envelope), &(b_incarnation, b_envelope), a_tail, b_tail);
            },
            (RemoteWireReply::Refused { incarnation, reason }, RemoteWireReply::Refused { incarnation: b_incarnation, reason: b_reason }) => {
                <(ServerIncarnation, String)>::lemma_unambiguous(&(incarnation, reason), &(b_incarnation, b_reason), a_tail, b_tail);
            },
            _ => {},
        }
    }

    fn decode(input: &mut DurableDecoder<'_>) -> (result: Result<RemoteWireReply<T>, StorageError>) {
        let ghost whole = input.rest();
        let tag: u8 = match input.u8() {
            Ok(tag) => tag,
            Err(error) => {
                proof {
                    assert forall|value: RemoteWireReply<T>, tail: Seq<u8>| #[trigger]
                        (value.wire() + tail) == whole implies false by {
                        assert((value.wire() + tail).len() >= 1);
                    }
                }
                return Err(error);
            },
        };
        let ghost rest = input.rest();
        proof {
            assert forall|value: RemoteWireReply<T>, tail: Seq<u8>| #[trigger]
                (value.wire() + tail) == whole implies value.tag() == tag && rest == value.body()
                + tail by {
                lemma_drop_tag(value.tag(), value.body(), tail);
                assert(whole.skip(1) =~= rest);
            }
        }
        match tag {
            1 => match <(ServerIncarnation, T)>::decode(input) {
                Ok((incarnation, envelope)) => {
                    let value = RemoteWireReply::Accepted { incarnation, envelope };
                    proof {
                        assert(whole =~= value.wire() + input.rest());
                        lemma_starts_with_value(value, input.rest());
                    }
                    Ok(value)
                },
                Err(error) => {
                    proof {
                        assert forall|value: RemoteWireReply<T>, tail: Seq<u8>|
                            value.durable() && #[trigger] (value.wire() + tail) == whole implies false by {
                            match value {
                                RemoteWireReply::Accepted { incarnation, envelope } => {
                                    lemma_starts_with_value((incarnation, envelope), tail);
                                },
                                _ => {},
                            }
                        }
                    }
                    Err(error)
                },
            },
            2 => match <(ServerIncarnation, String)>::decode(input) {
                Ok((incarnation, reason)) => {
                    let value = RemoteWireReply::Refused { incarnation, reason };
                    proof {
                        assert(whole =~= value.wire() + input.rest());
                        lemma_starts_with_value(value, input.rest());
                    }
                    Ok(value)
                },
                Err(error) => {
                    proof {
                        assert forall|value: RemoteWireReply<T>, tail: Seq<u8>|
                            value.durable() && #[trigger] (value.wire() + tail) == whole implies false by {
                            match value {
                                RemoteWireReply::Refused { incarnation, reason } => {
                                    lemma_starts_with_value((incarnation, reason), tail);
                                },
                                _ => {},
                            }
                        }
                    }
                    Err(error)
                },
            },
            _ => Err(durable_codec_error("invalid remote wire reply tag")),
        }
    }
}

} // verus!
