//! The block client: which request each call makes, and what it takes from
//! the answer. Carrying the request to the store is the transport's part.
use vstd::prelude::*;

use crate::block_api::{
    BlockBatchCommit, BlockBatchWrite, BlockRequest, BlockRequestEnvelope, BlockResponse,
    BlockResponseEnvelope, ByteRange, CreateDeviceRequest, DeleteResult, DeviceInfo, FlushResult,
    FlushScope, ForkRequest, PayloadIntegrity, ReadVerification, RestorePoint, WriteCommit,
    WriteDurability,
};
use crate::error::StorageError;
use crate::id::{ClientEpoch, DeviceId, RequestId};

verus! {

/// Numbers the requests of a client.
pub struct LocalBlockClient {
    pub client_epoch: ClientEpoch,
    pub next_request_id: u128,
}

impl LocalBlockClient {
    pub fn new() -> (client: LocalBlockClient)
        ensures
            client.client_epoch == ClientEpoch(1),
            client.next_request_id == 1,
    {
        LocalBlockClient { client_epoch: ClientEpoch(1), next_request_id: 1 }
    }

    /// Puts the next number on a request.
    fn envelope(&mut self, request: BlockRequest) -> (result: Result<
        BlockRequestEnvelope,
        StorageError,
    >)
        ensures
            *final(self) == after_request(*old(self)),
            result is Ok <==> old(self).next_request_id < u128::MAX,
            result matches Ok(envelope) ==> envelope == (BlockRequestEnvelope {
                request_id: RequestId(old(self).next_request_id),
                client_epoch: old(self).client_epoch,
                deadline: None,
                request,
            }),
            result matches Err(error) ==> error is Conflict,
    {
        if self.next_request_id == u128::MAX {
            return Err(StorageError::conflict("request id overflow"));
        }
        let request_id = RequestId(self.next_request_id);
        self.next_request_id = self.next_request_id + 1;
        Ok(
            BlockRequestEnvelope {
                request_id,
                client_epoch: self.client_epoch,
                deadline: None,
                request,
            },
        )
    }

    /// Asks for a device.
    pub fn create_device(&mut self, request: CreateDeviceRequest) -> (result: Result<BlockRequestEnvelope, StorageError>)
        ensures
            *final(self) == after_request(*old(self)),
            result is Ok <==> old(self).next_request_id < u128::MAX,
            result matches Ok(envelope) ==> envelope == (BlockRequestEnvelope {
                request_id: RequestId(old(self).next_request_id),
                client_epoch: old(self).client_epoch,
                deadline: None,
                request: BlockRequest::Create { request },
            }),
            result matches Err(error) ==> error is Conflict,
    {
        self.envelope(BlockRequest::Create { request })
    }

    /// Asks about a device.
    pub fn device_info(&mut self, device_id: DeviceId) -> (result: Result<BlockRequestEnvelope, StorageError>)
        ensures
            *final(self) == after_request(*old(self)),
            result is Ok <==> old(self).next_request_id < u128::MAX,
            result matches Ok(envelope) ==> envelope == (BlockRequestEnvelope {
                request_id: RequestId(old(self).next_request_id),
                client_epoch: old(self).client_epoch,
                deadline: None,
                request: BlockRequest::Info { device_id },
            }),
            result matches Err(error) ==> error is Conflict,
    {
        self.envelope(BlockRequest::Info { device_id })
    }

    /// A handle of a device, once the store has told of it.
    pub fn open_device(&self, device_id: DeviceId, response: BlockResponseEnvelope) -> (result: Result<
        LocalBlockDevice,
        StorageError,
    >)
        ensures
            result is Ok <==> response.response is Info,
            result matches Ok(device) ==> device.device_id == device_id,
            result matches Err(error) ==> error is Corrupt,
    {
        match info_answer(response) {
            Ok(_) => Ok(LocalBlockDevice { device_id }),
            Err(error) => Err(error),
        }
    }
}

/// A client after it has made a request.
pub open spec fn after_request(client: LocalBlockClient) -> LocalBlockClient {
    if client.next_request_id < u128::MAX {
        LocalBlockClient { next_request_id: (client.next_request_id + 1) as u128, ..client }
    } else {
        client
    }
}

/// No two requests of a client have the same number.
pub proof fn law_request_numbers_differ(first: LocalBlockClient, second: LocalBlockClient)
    requires
        first.next_request_id < u128::MAX,
        second.next_request_id >= after_request(first).next_request_id,
    ensures
        first.next_request_id != second.next_request_id,
{
}

/// A handle of a device.
pub struct LocalBlockDevice {
    pub device_id: DeviceId,
}

impl LocalBlockDevice {
    pub fn device_id(&self) -> (device_id: DeviceId)
        ensures
            device_id == self.device_id,
    {
        self.device_id
    }

    /// Asks about the device.
    pub fn info(&self, client: &mut LocalBlockClient) -> (result: Result<BlockRequestEnvelope, StorageError>)
        ensures
            *final(client) == after_request(*old(client)),
            result is Ok <==> old(client).next_request_id < u128::MAX,
            result matches Ok(envelope) ==> envelope == (BlockRequestEnvelope {
                request_id: RequestId(old(client).next_request_id),
                client_epoch: old(client).client_epoch,
                deadline: None,
                request: BlockRequest::Info { device_id: self.device_id },
            }),
            result matches Err(error) ==> error is Conflict,
    {
        client.envelope(BlockRequest::Info { device_id: self.device_id })
    }

    /// Asks for bytes of the device.
    pub fn read_at_with_verification(&self, client: &mut LocalBlockClient, range: ByteRange, verification: ReadVerification) -> (result: Result<BlockRequestEnvelope, StorageError>)
        ensures
            *final(client) == after_request(*old(client)),
            result is Ok <==> old(client).next_request_id < u128::MAX,
            result matches Ok(envelope) ==> envelope == (BlockRequestEnvelope {
                request_id: RequestId(old(client).next_request_id),
                client_epoch: old(client).client_epoch,
                deadline: None,
                request: BlockRequest::Read { device_id: self.device_id, range, verification },
            }),
            result matches Err(error) ==> error is Conflict,
    {
        client.envelope(BlockRequest::Read { device_id: self.device_id, range, verification })
    }

    /// Writes a batch in one commit.
    pub fn commit_batch(&self, client: &mut LocalBlockClient, writes: Vec<BlockBatchWrite>) -> (result: Result<BlockRequestEnvelope, StorageError>)
        ensures
            *final(client) == after_request(*old(client)),
            result is Ok <==> old(client).next_request_id < u128::MAX,
            result matches Ok(envelope) ==> envelope == (BlockRequestEnvelope {
                request_id: RequestId(old(client).next_request_id),
                client_epoch: old(client).client_epoch,
                deadline: None,
                request: BlockRequest::CommitBatch { device_id: self.device_id, writes, durability: WriteDurability::Acknowledged },
            }),
            result matches Err(error) ==> error is Conflict,
    {
        client.envelope(BlockRequest::CommitBatch { device_id: self.device_id, writes, durability: WriteDurability::Acknowledged })
    }

    /// Asks for the device to be durable.
    pub fn flush(&self, client: &mut LocalBlockClient) -> (result: Result<BlockRequestEnvelope, StorageError>)
        ensures
            *final(client) == after_request(*old(client)),
            result is Ok <==> old(client).next_request_id < u128::MAX,
            result matches Ok(envelope) ==> envelope == (BlockRequestEnvelope {
                request_id: RequestId(old(client).next_request_id),
                client_epoch: old(client).client_epoch,
                deadline: None,
                request: BlockRequest::Flush { device_id: self.device_id, scope: FlushScope::Device },
            }),
            result matches Err(error) ==> error is Conflict,
    {
        client.envelope(BlockRequest::Flush { device_id: self.device_id, scope: FlushScope::Device })
    }

    /// Makes a range read as zeros.
    pub fn write_zeroes(&self, client: &mut LocalBlockClient, range: ByteRange) -> (result: Result<BlockRequestEnvelope, StorageError>)
        ensures
            *final(client) == after_request(*old(client)),
            result is Ok <==> old(client).next_request_id < u128::MAX,
            result matches Ok(envelope) ==> envelope == (BlockRequestEnvelope {
                request_id: RequestId(old(client).next_request_id),
                client_epoch: old(client).client_epoch,
                deadline: None,
                request: BlockRequest::WriteZeroes { device_id: self.device_id, range },
            }),
            result matches Err(error) ==> error is Conflict,
    {
        client.envelope(BlockRequest::WriteZeroes { device_id: self.device_id, range })
    }

    /// Gives a range up.
    pub fn discard(&self, client: &mut LocalBlockClient, range: ByteRange) -> (result: Result<BlockRequestEnvelope, StorageError>)
        ensures
            *final(client) == after_request(*old(client)),
            result is Ok <==> old(client).next_request_id < u128::MAX,
            result matches Ok(envelope) ==> envelope == (BlockRequestEnvelope {
                request_id: RequestId(old(client).next_request_id),
                client_epoch: old(client).client_epoch,
                deadline: None,
                request: BlockRequest::Discard { device_id: self.device_id, range },
            }),
            result matches Err(error) ==> error is Conflict,
    {
        client.envelope(BlockRequest::Discard { device_id: self.device_id, range })
    }

    /// Asks for a fork of the device.
    pub fn fork(&self, client: &mut LocalBlockClient, request: ForkRequest) -> (result: Result<BlockRequestEnvelope, StorageError>)
        ensures
            *final(client) == after_request(*old(client)),
            result is Ok <==> old(client).next_request_id < u128::MAX,
            result matches Ok(envelope) ==> envelope == (BlockRequestEnvelope {
                request_id: RequestId(old(client).next_request_id),
                client_epoch: old(client).client_epoch,
                deadline: None,
                request: BlockRequest::Fork { source: self.device_id, request },
            }),
            result matches Err(error) ==> error is Conflict,
    {
        client.envelope(BlockRequest::Fork { source: self.device_id, request })
    }

    /// Asks for the device as it was.
    pub fn restore(&self, client: &mut LocalBlockClient, point: RestorePoint) -> (result: Result<BlockRequestEnvelope, StorageError>)
        ensures
            *final(client) == after_request(*old(client)),
            result is Ok <==> old(client).next_request_id < u128::MAX,
            result matches Ok(envelope) ==> envelope == (BlockRequestEnvelope {
                request_id: RequestId(old(client).next_request_id),
                client_epoch: old(client).client_epoch,
                deadline: None,
                request: BlockRequest::Restore { source: self.device_id, point },
            }),
            result matches Err(error) ==> error is Conflict,
    {
        client.envelope(BlockRequest::Restore { source: self.device_id, point })
    }

    /// Asks for the device to go.
    pub fn delete(&self, client: &mut LocalBlockClient) -> (result: Result<BlockRequestEnvelope, StorageError>)
        ensures
            *final(client) == after_request(*old(client)),
            result is Ok <==> old(client).next_request_id < u128::MAX,
            result matches Ok(envelope) ==> envelope == (BlockRequestEnvelope {
                request_id: RequestId(old(client).next_request_id),
                client_epoch: old(client).client_epoch,
                deadline: None,
                request: BlockRequest::Delete { device_id: self.device_id },
            }),
            result matches Err(error) ==> error is Conflict,
    {
        client.envelope(BlockRequest::Delete { device_id: self.device_id })
    }

    /// Writes bytes. No bytes need no write: the store is only asked where the
    /// device stands.
    pub fn write_at_with_integrity(
        &self,
        client: &mut LocalBlockClient,
        offset: u64,
        data: Vec<u8>,
        payload_integrity: PayloadIntegrity,
    ) -> (result: Result<BlockRequestEnvelope, StorageError>)
        ensures
            *final(client) == after_request(*old(client)),
            result is Ok <==> old(client).next_request_id < u128::MAX,
            result matches Ok(envelope) ==> envelope.request_id == RequestId(
                old(client).next_request_id,
            ) && envelope.client_epoch == old(client).client_epoch && envelope.deadline is None,
            result matches Ok(envelope) ==> if data@.len() == 0 {
                envelope.request == (BlockRequest::Info { device_id: self.device_id })
            } else {
                &&& envelope.request matches BlockRequest::CommitBatch {
                    device_id,
                    writes,
                    durability,
                }
                &&& device_id == self.device_id
                &&& durability == WriteDurability::Acknowledged
                &&& writes@ == seq![BlockBatchWrite { offset, bytes: data, payload_integrity }]
            },
            result matches Err(error) ==> error is Conflict,
    {
        if data.len() == 0 {
            return self.info(client);
        }
        let mut writes: Vec<BlockBatchWrite> = Vec::new();
        writes.push(BlockBatchWrite { offset, bytes: data, payload_integrity });
        assert(writes@ =~= seq![BlockBatchWrite { offset, bytes: data, payload_integrity }]);
        self.commit_batch(client, writes)
    }

    /// What a write of a range did.
    pub fn write_answer(&self, range: ByteRange, response: BlockResponseEnvelope) -> (result: Result<
        WriteCommit,
        StorageError,
    >)
        ensures
            result is Ok <==> if range.len == 0 {
                response.response is Info
            } else {
                response.response is BatchCommitted
            },
            result matches Ok(commit) ==> match response.response {
                BlockResponse::Info(info) => commit == (WriteCommit {
                    device_id: self.device_id,
                    commit_seq: info.latest_commit,
                    range,
                    durability: WriteDurability::Acknowledged,
                }),
                BlockResponse::BatchCommitted(batch) => commit == (WriteCommit {
                    device_id: batch.device_id,
                    commit_seq: batch.commit_seq,
                    range,
                    durability: batch.durability,
                }),
                _ => false,
            },
            result matches Err(error) ==> error is Corrupt,
    {
        if range.len == 0 {
            return match info_answer(response) {
                Ok(info) => Ok(
                    WriteCommit {
                        device_id: self.device_id,
                        commit_seq: info.latest_commit,
                        range,
                        durability: WriteDurability::Acknowledged,
                    },
                ),
                Err(error) => Err(error),
            };
        }
        match batch_answer(response) {
            Ok(commit) => Ok(
                WriteCommit {
                    device_id: commit.device_id,
                    commit_seq: commit.commit_seq,
                    range,
                    durability: commit.durability,
                },
            ),
            Err(error) => Err(error),
        }
    }
}

/// The device that was made.
pub fn created_answer(response: BlockResponseEnvelope) -> (result: Result<DeviceId, StorageError>)
    ensures
        result is Ok <==> response.response is Created,
        result matches Ok(value) ==> response.response == BlockResponse::Created(value),
        result matches Err(error) ==> error == (StorageError::Corrupt { message: "unexpected create-device response" }),
{
    match response.response {
        BlockResponse::Created(value) => Ok(value),
        _ => Err(StorageError::corrupt("unexpected create-device response")),
    }
}

/// What was told of a device.
pub fn info_answer(response: BlockResponseEnvelope) -> (result: Result<DeviceInfo, StorageError>)
    ensures
        result is Ok <==> response.response is Info,
        result matches Ok(value) ==> response.response == BlockResponse::Info(value),
        result matches Err(error) ==> error == (StorageError::Corrupt { message: "unexpected device-info response" }),
{
    match response.response {
        BlockResponse::Info(value) => Ok(value),
        _ => Err(StorageError::corrupt("unexpected device-info response")),
    }
}

/// The commit of a batch.
pub fn batch_answer(response: BlockResponseEnvelope) -> (result: Result<BlockBatchCommit, StorageError>)
    ensures
        result is Ok <==> response.response is BatchCommitted,
        result matches Ok(value) ==> response.response == BlockResponse::BatchCommitted(value),
        result matches Err(error) ==> error == (StorageError::Corrupt { message: "unexpected block-batch response" }),
{
    match response.response {
        BlockResponse::BatchCommitted(value) => Ok(value),
        _ => Err(StorageError::corrupt("unexpected block-batch response")),
    }
}

/// How far a device is durable.
pub fn flush_answer(response: BlockResponseEnvelope) -> (result: Result<FlushResult, StorageError>)
    ensures
        result is Ok <==> response.response is Flush,
        result matches Ok(value) ==> response.response == BlockResponse::Flush(value),
        result matches Err(error) ==> error == (StorageError::Corrupt { message: "unexpected block-flush response" }),
{
    match response.response {
        BlockResponse::Flush(value) => Ok(value),
        _ => Err(StorageError::corrupt("unexpected block-flush response")),
    }
}

/// The commit that wrote zeros.
pub fn zeroes_answer(response: BlockResponseEnvelope) -> (result: Result<WriteCommit, StorageError>)
    ensures
        result is Ok <==> response.response is Write,
        result matches Ok(value) ==> response.response == BlockResponse::Write(value),
        result matches Err(error) ==> error == (StorageError::Corrupt { message: "unexpected write-zeroes response" }),
{
    match response.response {
        BlockResponse::Write(value) => Ok(value),
        _ => Err(StorageError::corrupt("unexpected write-zeroes response")),
    }
}

/// The commit that gave a range up.
pub fn discard_answer(response: BlockResponseEnvelope) -> (result: Result<WriteCommit, StorageError>)
    ensures
        result is Ok <==> response.response is Write,
        result matches Ok(value) ==> response.response == BlockResponse::Write(value),
        result matches Err(error) ==> error == (StorageError::Corrupt { message: "unexpected discard response" }),
{
    match response.response {
        BlockResponse::Write(value) => Ok(value),
        _ => Err(StorageError::corrupt("unexpected discard response")),
    }
}

/// The fork that was made.
pub fn forked_answer(response: BlockResponseEnvelope) -> (result: Result<DeviceId, StorageError>)
    ensures
        result is Ok <==> response.response is Forked,
        result matches Ok(value) ==> response.response == BlockResponse::Forked(value),
        result matches Err(error) ==> error == (StorageError::Corrupt { message: "unexpected fork response" }),
{
    match response.response {
        BlockResponse::Forked(value) => Ok(value),
        _ => Err(StorageError::corrupt("unexpected fork response")),
    }
}

/// The device that holds the past.
pub fn restored_answer(response: BlockResponseEnvelope) -> (result: Result<DeviceId, StorageError>)
    ensures
        result is Ok <==> response.response is Restored,
        result matches Ok(value) ==> response.response == BlockResponse::Restored(value),
        result matches Err(error) ==> error == (StorageError::Corrupt { message: "unexpected restore response" }),
{
    match response.response {
        BlockResponse::Restored(value) => Ok(value),
        _ => Err(StorageError::corrupt("unexpected restore response")),
    }
}

/// What became of a device.
pub fn deleted_answer(response: BlockResponseEnvelope) -> (result: Result<DeleteResult, StorageError>)
    ensures
        result is Ok <==> response.response is Deleted,
        result matches Ok(value) ==> response.response == BlockResponse::Deleted(value),
        result matches Err(error) ==> error == (StorageError::Corrupt { message: "unexpected block-delete response" }),
{
    match response.response {
        BlockResponse::Deleted(value) => Ok(value),
        _ => Err(StorageError::corrupt("unexpected block-delete response")),
    }
}

/// Takes the bytes of a read; there must be just as many as were asked for.
pub fn read_answer(response: BlockResponseEnvelope, buf: &mut [u8]) -> (result: Result<(), StorageError>)
    ensures
        final(buf)@.len() == old(buf)@.len(),
        result is Ok <==> (response.response matches BlockResponse::Read(read) && read.bytes@.len()
            == old(buf)@.len()),
        result is Ok ==> (response.response matches BlockResponse::Read(read) && final(buf)@
            == read.bytes@),
        result matches Err(error) ==> error is Corrupt && final(buf)@ == old(buf)@,
{
    match response.response {
        BlockResponse::Read(read) => {
            if read.bytes.len() != buf.len() {
                return Err(StorageError::corrupt("read response length does not match request"));
            }
            copy_into(&read.bytes, buf);
            Ok(())
        },
        _ => Err(StorageError::corrupt("unexpected block-read response")),
    }
}

pub(crate) fn copy_into(bytes: &Vec<u8>, buf: &mut [u8])
    requires
        bytes@.len() == old(buf)@.len(),
    ensures
        final(buf)@ == bytes@,
{
    let mut next: usize = 0;
    while next < bytes.len()
        invariant
            next <= bytes@.len(),
            buf@.len() == bytes@.len(),
            forall|i: int| 0 <= i < next ==> buf@[i] == bytes@[i],
        decreases bytes@.len() - next,
    {
        buf[next] = bytes[next];
        next = next + 1;
    }
    assert(buf@ =~= bytes@);
}

} // verus!
