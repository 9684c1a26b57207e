//! The native client: which request each call makes, and what it takes from
//! the answer. Carrying the request to the store is the transport's part.
use vstd::prelude::*;

use crate::block_api::{
    ByteRange, FlushResult, PayloadIntegrity, ReadVerification, RestorePoint, WriteDurability,
};
use crate::block_client::copy_into;
use crate::error::StorageError;
use crate::id::{CheckpointId, ClientEpoch, FileId, KeyspaceId, RequestId};
use crate::native_api::{
    AppendPublishCommit, AppendPublishTicket, AppendStream, AppendTicket, CreateFileRequest,
    CreateKeyspaceRequest, FileBatchWrite, FileInfo, FileWriteCommit, KeyspaceInfo, NativeRequest,
    NativeRequestEnvelope, NativeResponse, NativeResponseEnvelope, SnapshotKeyspaceRequest,
};

verus! {

/// Numbers the requests of a client.
pub struct LocalNativeClient {
    pub client_epoch: ClientEpoch,
    pub next_request_id: u128,
}

impl LocalNativeClient {
    pub fn new() -> (client: LocalNativeClient)
        ensures
            client.client_epoch == ClientEpoch(1),
            client.next_request_id == 1,
    {
        LocalNativeClient { client_epoch: ClientEpoch(1), next_request_id: 1 }
    }

    /// Puts the next number on a request.
    fn envelope(&mut self, request: NativeRequest) -> (result: Result<
        NativeRequestEnvelope,
        StorageError,
    >)
        ensures
            *final(self) == after_request(*old(self)),
            result is Ok <==> old(self).next_request_id < u128::MAX,
            result matches Ok(envelope) ==> envelope == (NativeRequestEnvelope {
                request_id: RequestId(old(self).next_request_id),
                client_epoch: old(self).client_epoch,
                deadline: None,
                request,
            }),
            result matches Err(error) ==> error is Conflict,
    {
        if self.next_request_id == u128::MAX {
            return Err(StorageError::conflict("request id overflow"));
        }
        let request_id = RequestId(self.next_request_id);
        self.next_request_id = self.next_request_id + 1;
        Ok(
            NativeRequestEnvelope {
                request_id,
                client_epoch: self.client_epoch,
                deadline: None,
                request,
            },
        )
    }

    /// Asks for a keyspace.
    pub fn create_keyspace(&mut self, request: CreateKeyspaceRequest) -> (result: Result<NativeRequestEnvelope, StorageError>)
        ensures
            *final(self) == after_request(*old(self)),
            result is Ok <==> old(self).next_request_id < u128::MAX,
            result matches Ok(envelope) ==> envelope == (NativeRequestEnvelope {
                request_id: RequestId(old(self).next_request_id),
                client_epoch: old(self).client_epoch,
                deadline: None,
                request: NativeRequest::CreateKeyspace { request },
            }),
            result matches Err(error) ==> error is Conflict,
    {
        self.envelope(NativeRequest::CreateKeyspace { request })
    }

    /// Asks about a keyspace.
    pub fn keyspace_info(&mut self, keyspace_id: KeyspaceId) -> (result: Result<NativeRequestEnvelope, StorageError>)
        ensures
            *final(self) == after_request(*old(self)),
            result is Ok <==> old(self).next_request_id < u128::MAX,
            result matches Ok(envelope) ==> envelope == (NativeRequestEnvelope {
                request_id: RequestId(old(self).next_request_id),
                client_epoch: old(self).client_epoch,
                deadline: None,
                request: NativeRequest::KeyspaceInfo { keyspace_id },
            }),
            result matches Err(error) ==> error is Conflict,
    {
        self.envelope(NativeRequest::KeyspaceInfo { keyspace_id })
    }

    /// Asks for a file.
    pub fn create_file(&mut self, keyspace_id: KeyspaceId, request: CreateFileRequest) -> (result: Result<NativeRequestEnvelope, StorageError>)
        ensures
            *final(self) == after_request(*old(self)),
            result is Ok <==> old(self).next_request_id < u128::MAX,
            result matches Ok(envelope) ==> envelope == (NativeRequestEnvelope {
                request_id: RequestId(old(self).next_request_id),
                client_epoch: old(self).client_epoch,
                deadline: None,
                request: NativeRequest::CreateFile { keyspace_id, request },
            }),
            result matches Err(error) ==> error is Conflict,
    {
        self.envelope(NativeRequest::CreateFile { keyspace_id, request })
    }

    /// Asks about a file.
    pub fn file_info(&mut self, keyspace_id: KeyspaceId, file_id: FileId) -> (result: Result<NativeRequestEnvelope, StorageError>)
        ensures
            *final(self) == after_request(*old(self)),
            result is Ok <==> old(self).next_request_id < u128::MAX,
            result matches Ok(envelope) ==> envelope == (NativeRequestEnvelope {
                request_id: RequestId(old(self).next_request_id),
                client_epoch: old(self).client_epoch,
                deadline: None,
                request: NativeRequest::FileInfo { keyspace_id, file_id },
            }),
            result matches Err(error) ==> error is Conflict,
    {
        self.envelope(NativeRequest::FileInfo { keyspace_id, file_id })
    }

    /// Asks to append to a file.
    pub fn open_append_stream(&mut self, keyspace_id: KeyspaceId, file_id: FileId) -> (result: Result<NativeRequestEnvelope, StorageError>)
        ensures
            *final(self) == after_request(*old(self)),
            result is Ok <==> old(self).next_request_id < u128::MAX,
            result matches Ok(envelope) ==> envelope == (NativeRequestEnvelope {
                request_id: RequestId(old(self).next_request_id),
                client_epoch: old(self).client_epoch,
                deadline: None,
                request: NativeRequest::OpenAppendStream { keyspace_id, file_id },
            }),
            result matches Err(error) ==> error is Conflict,
    {
        self.envelope(NativeRequest::OpenAppendStream { keyspace_id, file_id })
    }

    /// Asks for a checkpoint of a keyspace.
    pub fn checkpoint_keyspace(&mut self, keyspace_id: KeyspaceId) -> (result: Result<NativeRequestEnvelope, StorageError>)
        ensures
            *final(self) == after_request(*old(self)),
            result is Ok <==> old(self).next_request_id < u128::MAX,
            result matches Ok(envelope) ==> envelope == (NativeRequestEnvelope {
                request_id: RequestId(old(self).next_request_id),
                client_epoch: old(self).client_epoch,
                deadline: None,
                request: NativeRequest::CheckpointKeyspace { keyspace_id },
            }),
            result matches Err(error) ==> error is Conflict,
    {
        self.envelope(NativeRequest::CheckpointKeyspace { keyspace_id })
    }

    /// Asks for a copy of a keyspace.
    pub fn snapshot_keyspace(&mut self, source: KeyspaceId, request: SnapshotKeyspaceRequest) -> (result: Result<NativeRequestEnvelope, StorageError>)
        ensures
            *final(self) == after_request(*old(self)),
            result is Ok <==> old(self).next_request_id < u128::MAX,
            result matches Ok(envelope) ==> envelope == (NativeRequestEnvelope {
                request_id: RequestId(old(self).next_request_id),
                client_epoch: old(self).client_epoch,
                deadline: None,
                request: NativeRequest::SnapshotKeyspace { source, request },
            }),
            result matches Err(error) ==> error is Conflict,
    {
        self.envelope(NativeRequest::SnapshotKeyspace { source, request })
    }

    /// Asks for a keyspace as it was.
    pub fn restore_keyspace(&mut self, source: KeyspaceId, point: RestorePoint) -> (result: Result<NativeRequestEnvelope, StorageError>)
        ensures
            *final(self) == after_request(*old(self)),
            result is Ok <==> old(self).next_request_id < u128::MAX,
            result matches Ok(envelope) ==> envelope == (NativeRequestEnvelope {
                request_id: RequestId(old(self).next_request_id),
                client_epoch: old(self).client_epoch,
                deadline: None,
                request: NativeRequest::RestoreKeyspace { source, point },
            }),
            result matches Err(error) ==> error is Conflict,
    {
        self.envelope(NativeRequest::RestoreKeyspace { source, point })
    }

    /// A handle of a file, once the store has told of it.
    pub fn open_file(
        &self,
        keyspace_id: KeyspaceId,
        file_id: FileId,
        response: NativeResponseEnvelope,
    ) -> (result: Result<LocalNativeFile, StorageError>)
        ensures
            result is Ok <==> response.response is FileInfo,
            result matches Ok(file) ==> file.keyspace_id == keyspace_id && file.file_id == file_id,
            result matches Err(error) ==> error is Corrupt,
    {
        match file_info_answer(response) {
            Ok(_) => Ok(LocalNativeFile { keyspace_id, file_id }),
            Err(error) => Err(error),
        }
    }
}

/// A client after it has made a request.
pub open spec fn after_request(client: LocalNativeClient) -> LocalNativeClient {
    if client.next_request_id < u128::MAX {
        LocalNativeClient { next_request_id: (client.next_request_id + 1) as u128, ..client }
    } else {
        client
    }
}

/// No two requests of a client have the same number.
pub proof fn law_request_numbers_differ(first: LocalNativeClient, second: LocalNativeClient)
    requires
        first.next_request_id < u128::MAX,
        second.next_request_id >= after_request(first).next_request_id,
    ensures
        first.next_request_id != second.next_request_id,
{
}

/// A handle of a file.
pub struct LocalNativeFile {
    pub keyspace_id: KeyspaceId,
    pub file_id: FileId,
}

impl LocalNativeFile {
    pub fn keyspace_id(&self) -> (keyspace_id: KeyspaceId)
        ensures
            keyspace_id == self.keyspace_id,
    {
        self.keyspace_id
    }

    pub fn file_id(&self) -> (file_id: FileId)
        ensures
            file_id == self.file_id,
    {
        self.file_id
    }

    /// Asks about the file.
    pub fn info(&self, client: &mut LocalNativeClient) -> (result: Result<NativeRequestEnvelope, StorageError>)
        ensures
            *final(client) == after_request(*old(client)),
            result is Ok <==> old(client).next_request_id < u128::MAX,
            result matches Ok(envelope) ==> envelope == (NativeRequestEnvelope {
                request_id: RequestId(old(client).next_request_id),
                client_epoch: old(client).client_epoch,
                deadline: None,
                request: NativeRequest::FileInfo { keyspace_id: self.keyspace_id, file_id: self.file_id },
            }),
            result matches Err(error) ==> error is Conflict,
    {
        client.envelope(NativeRequest::FileInfo { keyspace_id: self.keyspace_id, file_id: self.file_id })
    }

    /// Asks for bytes of the file.
    pub fn read_at_with_verification(&self, client: &mut LocalNativeClient, range: ByteRange, verification: ReadVerification) -> (result: Result<NativeRequestEnvelope, StorageError>)
        ensures
            *final(client) == after_request(*old(client)),
            result is Ok <==> old(client).next_request_id < u128::MAX,
            result matches Ok(envelope) ==> envelope == (NativeRequestEnvelope {
                request_id: RequestId(old(client).next_request_id),
                client_epoch: old(client).client_epoch,
                deadline: None,
                request: NativeRequest::Read { keyspace_id: self.keyspace_id, file_id: self.file_id, range, verification },
            }),
            result matches Err(error) ==> error is Conflict,
    {
        client.envelope(NativeRequest::Read { keyspace_id: self.keyspace_id, file_id: self.file_id, range, verification })
    }

    /// Writes a batch in one commit.
    pub fn commit_batch_with_integrity(&self, client: &mut LocalNativeClient, writes: Vec<FileBatchWrite>, payload_integrity: PayloadIntegrity) -> (result: Result<NativeRequestEnvelope, StorageError>)
        ensures
            *final(client) == after_request(*old(client)),
            result is Ok <==> old(client).next_request_id < u128::MAX,
            result matches Ok(envelope) ==> envelope == (NativeRequestEnvelope {
                request_id: RequestId(old(client).next_request_id),
                client_epoch: old(client).client_epoch,
                deadline: None,
                request: NativeRequest::CommitFileBatch { keyspace_id: self.keyspace_id, file_id: self.file_id, writes, payload_integrity, durability: WriteDurability::Acknowledged },
            }),
            result matches Err(error) ==> error is Conflict,
    {
        client.envelope(NativeRequest::CommitFileBatch { keyspace_id: self.keyspace_id, file_id: self.file_id, writes, payload_integrity, durability: WriteDurability::Acknowledged })
    }

    /// Asks to append to the file.
    pub fn open_append_stream(&self, client: &mut LocalNativeClient) -> (result: Result<NativeRequestEnvelope, StorageError>)
        ensures
            *final(client) == after_request(*old(client)),
            result is Ok <==> old(client).next_request_id < u128::MAX,
            result matches Ok(envelope) ==> envelope == (NativeRequestEnvelope {
                request_id: RequestId(old(client).next_request_id),
                client_epoch: old(client).client_epoch,
                deadline: None,
                request: NativeRequest::OpenAppendStream { keyspace_id: self.keyspace_id, file_id: self.file_id },
            }),
            result matches Err(error) ==> error is Conflict,
    {
        client.envelope(NativeRequest::OpenAppendStream { keyspace_id: self.keyspace_id, file_id: self.file_id })
    }

    /// Appends to a stream.
    pub fn append_stream_with_integrity(&self, client: &mut LocalNativeClient, stream: AppendStream, bytes: Vec<u8>, payload_integrity: PayloadIntegrity) -> (result: Result<NativeRequestEnvelope, StorageError>)
        ensures
            *final(client) == after_request(*old(client)),
            result is Ok <==> old(client).next_request_id < u128::MAX,
            result matches Ok(envelope) ==> envelope == (NativeRequestEnvelope {
                request_id: RequestId(old(client).next_request_id),
                client_epoch: old(client).client_epoch,
                deadline: None,
                request: NativeRequest::AppendStream { keyspace_id: self.keyspace_id, file_id: self.file_id, stream, bytes, payload_integrity },
            }),
            result matches Err(error) ==> error is Conflict,
    {
        client.envelope(NativeRequest::AppendStream { keyspace_id: self.keyspace_id, file_id: self.file_id, stream, bytes, payload_integrity })
    }

    /// Asks for appended bytes to be made part of the file.
    pub fn submit_append_publish(&self, client: &mut LocalNativeClient, stream: AppendStream, publish_through: u64) -> (result: Result<NativeRequestEnvelope, StorageError>)
        ensures
            *final(client) == after_request(*old(client)),
            result is Ok <==> old(client).next_request_id < u128::MAX,
            result matches Ok(envelope) ==> envelope == (NativeRequestEnvelope {
                request_id: RequestId(old(client).next_request_id),
                client_epoch: old(client).client_epoch,
                deadline: None,
                request: NativeRequest::SubmitAppendPublish { keyspace_id: self.keyspace_id, file_id: self.file_id, stream, publish_through },
            }),
            result matches Err(error) ==> error is Conflict,
    {
        client.envelope(NativeRequest::SubmitAppendPublish { keyspace_id: self.keyspace_id, file_id: self.file_id, stream, publish_through })
    }

    /// Waits for a publish.
    pub fn wait_append_publish(&self, client: &mut LocalNativeClient, ticket: AppendPublishTicket) -> (result: Result<NativeRequestEnvelope, StorageError>)
        ensures
            *final(client) == after_request(*old(client)),
            result is Ok <==> old(client).next_request_id < u128::MAX,
            result matches Ok(envelope) ==> envelope == (NativeRequestEnvelope {
                request_id: RequestId(old(client).next_request_id),
                client_epoch: old(client).client_epoch,
                deadline: None,
                request: NativeRequest::WaitAppendPublish { keyspace_id: self.keyspace_id, file_id: self.file_id, ticket },
            }),
            result matches Err(error) ==> error is Conflict,
    {
        client.envelope(NativeRequest::WaitAppendPublish { keyspace_id: self.keyspace_id, file_id: self.file_id, ticket })
    }

    /// Ends a stream.
    pub fn release_append_stream(&self, client: &mut LocalNativeClient, stream: AppendStream) -> (result: Result<NativeRequestEnvelope, StorageError>)
        ensures
            *final(client) == after_request(*old(client)),
            result is Ok <==> old(client).next_request_id < u128::MAX,
            result matches Ok(envelope) ==> envelope == (NativeRequestEnvelope {
                request_id: RequestId(old(client).next_request_id),
                client_epoch: old(client).client_epoch,
                deadline: None,
                request: NativeRequest::ReleaseAppendStream { keyspace_id: self.keyspace_id, file_id: self.file_id, stream },
            }),
            result matches Err(error) ==> error is Conflict,
    {
        client.envelope(NativeRequest::ReleaseAppendStream { keyspace_id: self.keyspace_id, file_id: self.file_id, stream })
    }

    /// Ends a stream and drops what it did not publish.
    pub fn abort_append_stream(&self, client: &mut LocalNativeClient, stream: AppendStream) -> (result: Result<NativeRequestEnvelope, StorageError>)
        ensures
            *final(client) == after_request(*old(client)),
            result is Ok <==> old(client).next_request_id < u128::MAX,
            result matches Ok(envelope) ==> envelope == (NativeRequestEnvelope {
                request_id: RequestId(old(client).next_request_id),
                client_epoch: old(client).client_epoch,
                deadline: None,
                request: NativeRequest::AbortAppendStream { keyspace_id: self.keyspace_id, file_id: self.file_id, stream },
            }),
            result matches Err(error) ==> error is Conflict,
    {
        client.envelope(NativeRequest::AbortAppendStream { keyspace_id: self.keyspace_id, file_id: self.file_id, stream })
    }

    /// Asks for the file to be durable.
    pub fn flush(&self, client: &mut LocalNativeClient) -> (result: Result<NativeRequestEnvelope, StorageError>)
        ensures
            *final(client) == after_request(*old(client)),
            result is Ok <==> old(client).next_request_id < u128::MAX,
            result matches Ok(envelope) ==> envelope == (NativeRequestEnvelope {
                request_id: RequestId(old(client).next_request_id),
                client_epoch: old(client).client_epoch,
                deadline: None,
                request: NativeRequest::Flush { keyspace_id: self.keyspace_id, file_id: self.file_id },
            }),
            result matches Err(error) ==> error is Conflict,
    {
        client.envelope(NativeRequest::Flush { keyspace_id: self.keyspace_id, file_id: self.file_id })
    }
}

/// The keyspace that was made.
pub fn keyspace_created_answer(response: NativeResponseEnvelope) -> (result: Result<KeyspaceId, StorageError>)
    ensures
        result is Ok <==> response.response is KeyspaceCreated,
        result matches Ok(value) ==> response.response == NativeResponse::KeyspaceCreated(value),
        result matches Err(error) ==> error == (StorageError::Corrupt { message: "unexpected create-keyspace response" }),
{
    match response.response {
        NativeResponse::KeyspaceCreated(value) => Ok(value),
        _ => Err(StorageError::corrupt("unexpected create-keyspace response")),
    }
}

/// What was told of a keyspace.
pub fn keyspace_info_answer(response: NativeResponseEnvelope) -> (result: Result<KeyspaceInfo, StorageError>)
    ensures
        result is Ok <==> response.response is KeyspaceInfo,
        result matches Ok(value) ==> response.response == NativeResponse::KeyspaceInfo(value),
        result matches Err(error) ==> error == (StorageError::Corrupt { message: "unexpected keyspace-info response" }),
{
    match response.response {
        NativeResponse::KeyspaceInfo(value) => Ok(value),
        _ => Err(StorageError::corrupt("unexpected keyspace-info response")),
    }
}

/// The file that was made.
pub fn file_created_answer(response: NativeResponseEnvelope) -> (result: Result<FileId, StorageError>)
    ensures
        result is Ok <==> response.response is FileCreated,
        result matches Ok(value) ==> response.response == NativeResponse::FileCreated(value),
        result matches Err(error) ==> error == (StorageError::Corrupt { message: "unexpected create-file response" }),
{
    match response.response {
        NativeResponse::FileCreated(value) => Ok(value),
        _ => Err(StorageError::corrupt("unexpected create-file response")),
    }
}

/// What was told of a file.
pub fn file_info_answer(response: NativeResponseEnvelope) -> (result: Result<FileInfo, StorageError>)
    ensures
        result is Ok <==> response.response is FileInfo,
        result matches Ok(value) ==> response.response == NativeResponse::FileInfo(value),
        result matches Err(error) ==> error == (StorageError::Corrupt { message: "unexpected file-info response" }),
{
    match response.response {
        NativeResponse::FileInfo(value) => Ok(value),
        _ => Err(StorageError::corrupt("unexpected file-info response")),
    }
}

/// The commit of a batch.
pub fn file_batch_answer(response: NativeResponseEnvelope) -> (result: Result<FileWriteCommit, StorageError>)
    ensures
        result is Ok <==> response.response is FileBatchCommitted,
        result matches Ok(value) ==> response.response == NativeResponse::FileBatchCommitted(value),
        result matches Err(error) ==> error == (StorageError::Corrupt { message: "unexpected native-file-batch response" }),
{
    match response.response {
        NativeResponse::FileBatchCommitted(value) => Ok(value),
        _ => Err(StorageError::corrupt("unexpected native-file-batch response")),
    }
}

/// The stream that was opened.
pub fn stream_opened_answer(response: NativeResponseEnvelope) -> (result: Result<AppendStream, StorageError>)
    ensures
        result is Ok <==> response.response is AppendStreamOpened,
        result matches Ok(value) ==> response.response == NativeResponse::AppendStreamOpened(value),
        result matches Err(error) ==> error == (StorageError::Corrupt { message: "unexpected append-stream response" }),
{
    match response.response {
        NativeResponse::AppendStreamOpened(value) => Ok(value),
        _ => Err(StorageError::corrupt("unexpected append-stream response")),
    }
}

/// Where an append went.
pub fn append_answer(response: NativeResponseEnvelope) -> (result: Result<AppendTicket, StorageError>)
    ensures
        result is Ok <==> response.response is AppendTicket,
        result matches Ok(value) ==> response.response == NativeResponse::AppendTicket(value),
        result matches Err(error) ==> error == (StorageError::Corrupt { message: "unexpected append-ticket response" }),
{
    match response.response {
        NativeResponse::AppendTicket(value) => Ok(value),
        _ => Err(StorageError::corrupt("unexpected append-ticket response")),
    }
}

/// The publish that was asked for.
pub fn publish_submitted_answer(response: NativeResponseEnvelope) -> (result: Result<AppendPublishTicket, StorageError>)
    ensures
        result is Ok <==> response.response is AppendPublishSubmitted,
        result matches Ok(value) ==> response.response == NativeResponse::AppendPublishSubmitted(value),
        result matches Err(error) ==> error == (StorageError::Corrupt { message: "unexpected append-publish-submit response" }),
{
    match response.response {
        NativeResponse::AppendPublishSubmitted(value) => Ok(value),
        _ => Err(StorageError::corrupt("unexpected append-publish-submit response")),
    }
}

/// The commit of a publish.
pub fn published_answer(response: NativeResponseEnvelope) -> (result: Result<AppendPublishCommit, StorageError>)
    ensures
        result is Ok <==> response.response is AppendPublished,
        result matches Ok(value) ==> response.response == NativeResponse::AppendPublished(value),
        result matches Err(error) ==> error == (StorageError::Corrupt { message: "unexpected append-publish-wait response" }),
{
    match response.response {
        NativeResponse::AppendPublished(value) => Ok(value),
        _ => Err(StorageError::corrupt("unexpected append-publish-wait response")),
    }
}

/// That a stream has ended.
pub fn released_answer(response: NativeResponseEnvelope) -> (result: Result<(), StorageError>)
    ensures
        result is Ok <==> response.response is AppendReleased,
        result matches Err(error) ==> error == (StorageError::Corrupt { message: "unexpected append-release response" }),
{
    match response.response {
        NativeResponse::AppendReleased => Ok(()),
        _ => Err(StorageError::corrupt("unexpected append-release response")),
    }
}

/// That a stream was dropped.
pub fn aborted_answer(response: NativeResponseEnvelope) -> (result: Result<(), StorageError>)
    ensures
        result is Ok <==> response.response is AppendAborted,
        result matches Err(error) ==> error == (StorageError::Corrupt { message: "unexpected append-abort response" }),
{
    match response.response {
        NativeResponse::AppendAborted => Ok(()),
        _ => Err(StorageError::corrupt("unexpected append-abort response")),
    }
}

/// How far a file is durable.
pub fn file_flush_answer(response: NativeResponseEnvelope) -> (result: Result<FlushResult, StorageError>)
    ensures
        result is Ok <==> response.response is Flush,
        result matches Ok(value) ==> response.response == NativeResponse::Flush(value),
        result matches Err(error) ==> error == (StorageError::Corrupt { message: "unexpected native-flush response" }),
{
    match response.response {
        NativeResponse::Flush(value) => Ok(value),
        _ => Err(StorageError::corrupt("unexpected native-flush response")),
    }
}

/// The checkpoint that was made.
pub fn checkpointed_answer(response: NativeResponseEnvelope) -> (result: Result<CheckpointId, StorageError>)
    ensures
        result is Ok <==> response.response is KeyspaceCheckpointed,
        result matches Ok(value) ==> response.response == NativeResponse::KeyspaceCheckpointed(value),
        result matches Err(error) ==> error == (StorageError::Corrupt { message: "unexpected keyspace-checkpoint response" }),
{
    match response.response {
        NativeResponse::KeyspaceCheckpointed(value) => Ok(value),
        _ => Err(StorageError::corrupt("unexpected keyspace-checkpoint response")),
    }
}

/// The copy that was made.
pub fn snapshotted_answer(response: NativeResponseEnvelope) -> (result: Result<KeyspaceId, StorageError>)
    ensures
        result is Ok <==> response.response is KeyspaceSnapshotted,
        result matches Ok(value) ==> response.response == NativeResponse::KeyspaceSnapshotted(value),
        result matches Err(error) ==> error == (StorageError::Corrupt { message: "unexpected keyspace-snapshot response" }),
{
    match response.response {
        NativeResponse::KeyspaceSnapshotted(value) => Ok(value),
        _ => Err(StorageError::corrupt("unexpected keyspace-snapshot response")),
    }
}

/// The keyspace that holds the past.
pub fn keyspace_restored_answer(response: NativeResponseEnvelope) -> (result: Result<KeyspaceId, StorageError>)
    ensures
        result is Ok <==> response.response is KeyspaceRestored,
        result matches Ok(value) ==> response.response == NativeResponse::KeyspaceRestored(value),
        result matches Err(error) ==> error == (StorageError::Corrupt { message: "unexpected keyspace-restore response" }),
{
    match response.response {
        NativeResponse::KeyspaceRestored(value) => Ok(value),
        _ => Err(StorageError::corrupt("unexpected keyspace-restore response")),
    }
}

/// Takes the bytes of a read; there must be just as many as were asked for.
pub fn read_answer(response: NativeResponseEnvelope, buf: &mut [u8]) -> (result: Result<(), StorageError>)
    ensures
        final(buf)@.len() == old(buf)@.len(),
        result is Ok <==> (response.response matches NativeResponse::Read(read) && read.bytes@.len()
            == old(buf)@.len()),
        result is Ok ==> (response.response matches NativeResponse::Read(read) && final(buf)@
            == read.bytes@),
        result matches Err(error) ==> error is Corrupt && final(buf)@ == old(buf)@,
{
    match response.response {
        NativeResponse::Read(read) => {
            if read.bytes.len() != buf.len() {
                return Err(StorageError::corrupt("read response length does not match request"));
            }
            copy_into(&read.bytes, buf);
            Ok(())
        },
        _ => Err(StorageError::corrupt("unexpected native-read response")),
    }
}

} // verus!
