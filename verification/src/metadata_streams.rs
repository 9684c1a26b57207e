//! Append streams: what they have taken in and what of it is published.
use vstd::prelude::*;

use crate::block_api::ByteRange;
use crate::error::StorageError;
use crate::file_publish::{fenced, lemma_fenced_streams_wf};
use crate::id::{
    AppendPublishTicketId, AppendStreamId, AppendTicketId, FileId, KeyspaceId, WriterEpoch,
};
use crate::leaf::{extent_at, extents_wf};
use crate::metadata::{
    AppendPublishTicketRecord, FileWriterEpoch, LiveAppendStream, MetadataInner,
    records_contiguous, stream_record_wf, stream_wf, streams_wf,
};
use crate::metadata_records::{
    AppendLogRun, AppendLogRunRange, AppendStreamRunRecord, AppendStreamState, AppendStreamStatus,
    RunBackedFileExtent, SegmentPayloadIntegrity,
};
use crate::native_api::{AppendPublishTicket, AppendStream, AppendTicket};
use crate::read_plan::{RunLogMap, run_backed, runs_backed};

verus! {

/// Whether a record holds a byte of the file.
pub open spec fn record_contains(record: AppendStreamRunRecord, byte: int) -> bool {
    record.offset <= byte < record.offset + record.len
}

/// The byte that a record holds.
pub open spec fn record_byte(logs: RunLogMap, record: AppendStreamRunRecord, byte: int) -> u8 {
    logs[(record.run.storage_node, record.run.log_id)][record.run.log_payload_offset + (byte
        - record.offset)]
}

/// The byte that the last record at a place holds.
pub open spec fn records_byte(
    logs: RunLogMap,
    records: Seq<AppendStreamRunRecord>,
    byte: int,
) -> Option<u8>
    decreases records.len(),
{
    if records.len() == 0 {
        None
    } else if record_contains(records.last(), byte) {
        Some(record_byte(logs, records.last(), byte))
    } else {
        records_byte(logs, records.drop_last(), byte)
    }
}

/// The run of a record, as a part of a file.
pub open spec fn record_extent(record: AppendStreamRunRecord) -> RunBackedFileExtent {
    RunBackedFileExtent {
        file_offset_start: record.offset,
        payload_len: record.len,
        run: AppendLogRunRange {
            run_id: record.run.run_id,
            storage_node: record.run.storage_node,
            stream_id: record.run.stream_id,
            writer_epoch: record.run.writer_epoch,
            keyspace_id: record.run.keyspace_id,
            file_id: record.run.file_id,
            file_offset_start: record.run.file_offset_start,
            payload_len: record.run.payload_len,
            log_id: record.run.log_id,
            log_payload_offset: record.run.log_payload_offset,
            integrity: record.run.integrity,
        },
    }
}

pub open spec fn extents_of(records: Seq<AppendStreamRunRecord>) -> Seq<RunBackedFileExtent> {
    records.map_values(|record: AppendStreamRunRecord| record_extent(record))
}

/// A part of a record; a checksum is of a whole run, so a part has none.
pub open spec fn record_part(
    record: AppendStreamRunRecord,
    from: int,
    to: int,
) -> AppendStreamRunRecord {
    AppendStreamRunRecord {
        ticket_id: record.ticket_id,
        offset: from as u64,
        len: (to - from) as u64,
        run: AppendLogRun {
            file_offset_start: from as u64,
            payload_len: (to - from) as u64,
            log_payload_offset: (record.run.log_payload_offset + (from - record.offset)) as u64,
            integrity: SegmentPayloadIntegrity::Unchecked,
            ..record.run
        },
    }
}

/// A record up to a place; one that ends before it is whole.
pub open spec fn record_up_to(record: AppendStreamRunRecord, through: int) -> AppendStreamRunRecord {
    if record.offset + record.len <= through {
        record
    } else {
        record_part(record, record.offset as int, through)
    }
}

/// Whether records are the first ones of a stream, the last one cut at a place.
pub open spec fn taken_up_to(
    records: Seq<AppendStreamRunRecord>,
    taken: Seq<AppendStreamRunRecord>,
    through: int,
) -> bool {
    &&& taken.len() <= records.len()
    &&& forall|i: int|
        0 <= i < taken.len() ==> #[trigger] taken[i] == record_up_to(records[i], through)
}

fn slice_record(record: &AppendStreamRunRecord, from: u64, to: u64, logs: Ghost<RunLogMap>)
    -> (part: AppendStreamRunRecord)
    requires
        stream_record_wf(logs@, *record),
        record.offset <= from < to <= record.offset + record.len,
    ensures
        part == record_part(*record, from as int, to as int),
        stream_record_wf(logs@, part),
        forall|byte: int| #[trigger]
            record_byte(logs@, part, byte) == record_byte(logs@, *record, byte),
{
    let mut run = record.run;
    run.file_offset_start = from;
    run.payload_len = to - from;
    run.log_payload_offset = record.run.log_payload_offset + (from - record.offset);
    run.integrity = SegmentPayloadIntegrity::Unchecked;
    AppendStreamRunRecord { ticket_id: record.ticket_id, offset: from, len: to - from, run }
}

/// Records that follow one another hold each byte between their ends, once.
pub proof fn lemma_records_cover(
    records: Seq<AppendStreamRunRecord>,
    start: int,
    end: int,
    byte: int,
)
    requires
        records_contiguous(records, start, end),
        forall|i: int| 0 <= i < records.len() ==> (#[trigger] records[i]).len > 0,
    ensures
        start <= end,
        start <= byte < end <==> exists|i: int|
            0 <= i < records.len() && record_contains(#[trigger] records[i], byte),
        forall|i: int, j: int|
            0 <= i < j < records.len() ==> (#[trigger] records[i]).offset + records[i].len <= (
            #[trigger] records[j]).offset,
        forall|i: int|
            0 <= i < records.len() ==> start <= (#[trigger] records[i]).offset && records[i].offset
                + records[i].len <= end,
    decreases records.len(),
{
    if records.len() > 0 {
        let n = records.len() - 1;
        let last = records[n];
        let shorter = records.drop_last();
        let middle = last.offset as int;
        assert(records_contiguous(shorter, start, middle)) by {
            if n > 0 {
                assert(records[n - 1].offset + records[n - 1].len == records[n].offset);
            }
        }
        lemma_records_cover(shorter, start, middle, byte);
        assert forall|i: int, j: int| 0 <= i < j < records.len() implies (
        #[trigger] records[i]).offset + records[i].len <= (#[trigger] records[j]).offset by {
            assert(shorter[i] == records[i]);
            if j < n {
                assert(shorter[j] == records[j]);
            }
        }
        assert forall|i: int| 0 <= i < records.len() implies start <= (
        #[trigger] records[i]).offset && records[i].offset + records[i].len <= end by {
            if i < n {
                assert(shorter[i] == records[i]);
            }
        }
        if start <= byte < end {
            if byte < middle {
                let i = choose|i: int|
                    0 <= i < shorter.len() && record_contains(#[trigger] shorter[i], byte);
                assert(record_contains(records[i], byte));
            } else {
                assert(record_contains(records[n], byte));
            }
        }
    }
}

/// The record that holds a byte decides it.
pub proof fn lemma_record_decides(
    logs: RunLogMap,
    records: Seq<AppendStreamRunRecord>,
    i: int,
    byte: int,
)
    requires
        0 <= i < records.len(),
        record_contains(records[i], byte),
        forall|a: int, b: int|
            0 <= a < b < records.len() ==> (#[trigger] records[a]).offset + records[a].len <= (
            #[trigger] records[b]).offset,
    ensures
        records_byte(logs, records, byte) == Some(record_byte(logs, records[i], byte)),
    decreases records.len(),
{
    let n = records.len() - 1;
    if i < n {
        assert(records[i].offset + records[i].len <= records[n].offset);
        let shorter = records.drop_last();
        assert forall|a: int, b: int| 0 <= a < b < shorter.len() implies (
        #[trigger] shorter[a]).offset + shorter[a].len <= (#[trigger] shorter[b]).offset by {
            assert(records[a].offset + records[a].len <= records[b].offset);
        }
        lemma_record_decides(logs, shorter, i, byte);
    }
}

pub proof fn lemma_records_none(
    logs: RunLogMap,
    records: Seq<AppendStreamRunRecord>,
    byte: int,
)
    requires
        forall|i: int| 0 <= i < records.len() ==> !record_contains(#[trigger] records[i], byte),
    ensures
        records_byte(logs, records, byte) is None,
    decreases records.len(),
{
    if records.len() > 0 {
        assert(!record_contains(records[records.len() - 1], byte));
        let shorter = records.drop_last();
        assert forall|i: int| 0 <= i < shorter.len() implies !record_contains(
            #[trigger] shorter[i],
            byte,
        ) by {
            assert(!record_contains(records[i], byte));
        }
        lemma_records_none(logs, shorter, byte);
    }
}

/// The token that stands for a stream.
pub open spec fn stream_token(stream: LiveAppendStream) -> AppendStream {
    AppendStream {
        keyspace_id: stream.state.keyspace_id,
        file_id: stream.state.file_id,
        stream_id: stream.state.stream_id,
        writer_epoch: stream.state.writer_epoch,
        base_version: stream.state.base_version,
        visible_base_size: stream.state.visible_base_size,
    }
}

/// The extents of a stream's records.
pub(crate) fn record_extents(records: &Vec<AppendStreamRunRecord>, logs: Ghost<RunLogMap>) -> (extents: Vec<
    RunBackedFileExtent,
>)
    requires
        forall|i: int|
            0 <= i < records@.len() ==> stream_record_wf(logs@, #[trigger] records@[i]),
    ensures
        extents@ == extents_of(records@),
        runs_backed(logs@, extents@),
{
    let mut extents: Vec<RunBackedFileExtent> = Vec::new();
    let mut i: usize = 0;
    while i < records.len()
        invariant
            i <= records@.len(),
            forall|i: int|
                0 <= i < records@.len() ==> stream_record_wf(logs@, #[trigger] records@[i]),
            extents@.len() == i,
            forall|k: int| 0 <= k < i ==> #[trigger] extents@[k] == record_extent(records@[k]),
        decreases records@.len() - i,
    {
        let record = records[i];
        let run = record.run;
        extents.push(
            RunBackedFileExtent {
                file_offset_start: record.offset,
                payload_len: record.len,
                run: AppendLogRunRange {
                    run_id: run.run_id,
                    storage_node: run.storage_node,
                    stream_id: run.stream_id,
                    writer_epoch: run.writer_epoch,
                    keyspace_id: run.keyspace_id,
                    file_id: run.file_id,
                    file_offset_start: run.file_offset_start,
                    payload_len: run.payload_len,
                    log_id: run.log_id,
                    log_payload_offset: run.log_payload_offset,
                    integrity: run.integrity,
                },
            },
        );
        i = i + 1;
    }
    proof {
        assert(extents@ =~= extents_of(records@));
        assert forall|k: int| 0 <= k < extents@.len() implies run_backed(
            logs@,
            #[trigger] extents@[k],
        ) by {
            assert(stream_record_wf(logs@, records@[k]));
        }
    }
    extents
}

/// The extents of records hold the records' bytes.
pub proof fn lemma_record_extents(
    logs: RunLogMap,
    records: Seq<AppendStreamRunRecord>,
    start: int,
    end: int,
)
    requires
        records_contiguous(records, start, end),
        forall|i: int| 0 <= i < records.len() ==> stream_record_wf(logs, #[trigger] records[i]),
    ensures
        extents_wf(
            extents_of(records),
            start,
            end,
        ),
        forall|byte: int|
            start <= byte < end ==> (#[trigger] extent_at(
                extents_of(records),
                byte,
            ) matches Some(logged) && records_byte(logs, records, byte) == Some(
                logs[(logged.storage_node, logged.log_id)][logged.offset],
            )),
{
    let extents = extents_of(records);
    assert forall|i: int| 0 <= i < records.len() implies (#[trigger] records[i]).len > 0 by {
        assert(stream_record_wf(logs, records[i]));
    }
    lemma_records_cover(records, start, end, start);
    assert forall|i: int| 0 <= i < extents.len() implies (#[trigger] extents[i]).wf() && start
        <= extents[i].file_offset_start && extents[i].range().end() <= end by {
        assert(stream_record_wf(logs, records[i]));
        assert(start <= records[i].offset);
    }
    assert forall|i: int, j: int| 0 <= i < j < extents.len() implies (
    #[trigger] extents[i]).range().end() <= (#[trigger] extents[j]).file_offset_start by {
        assert(records[i].offset + records[i].len <= records[j].offset);
    }
    assert(extents_wf(extents, start, end));
    assert forall|byte: int| start <= byte < end implies (#[trigger] extent_at(
        extents,
        byte,
    ) matches Some(logged) && records_byte(logs, records, byte) == Some(
        logs[(logged.storage_node, logged.log_id)][logged.offset],
    )) by {
        lemma_records_cover(records, start, end, byte);
        let i = choose|i: int|
            0 <= i < records.len() && record_contains(#[trigger] records[i], byte);
        lemma_record_decides(logs, records, i, byte);
        assert(extents[i].range().contains(byte));
        crate::leaf::lemma_extent_entry(extents, start, end, i, byte);
        assert(extents[i] == record_extent(records[i]));
    }
}

/// Whether a token is that of an open stream.
pub open spec fn token_open(streams: Map<u128, LiveAppendStream>, token: AppendStream) -> bool {
    &&& streams.contains_key(token.stream_id.0)
    &&& stream_token(streams[token.stream_id.0]) == token
    &&& streams[token.stream_id.0].state.status == AppendStreamStatus::Active
}

/// A stream after a publish.
pub open spec fn published_stream(
    before: LiveAppendStream,
    after: LiveAppendStream,
    logs: RunLogMap,
    through: u64,
) -> bool {
    &&& stream_token(after) == stream_token(before)
    &&& after.state.status == before.state.status
    &&& after.accepted_tail == before.accepted_tail
    &&& after.base_writer_epoch == before.base_writer_epoch
    &&& after.state.published_through == through
    &&& after.state.durable_through == if before.state.durable_through >= through {
        before.state.durable_through
    } else {
        through
    }
    &&& forall|byte: int|
        through <= byte < before.accepted_tail ==> #[trigger] records_byte(
            logs,
            after.state.records@,
            byte,
        ) == records_byte(logs, before.state.records@, byte)
}

/// The records up to a place, the last one cut there.
#[verifier::rlimit(60)]
fn records_before(
    records: &Vec<AppendStreamRunRecord>,
    start: u64,
    tail: u64,
    through: u64,
    logs: Ghost<RunLogMap>,
) -> (taken: Vec<AppendStreamRunRecord>)
    requires
        records_contiguous(records@, start as int, tail as int),
        forall|i: int|
            0 <= i < records@.len() ==> stream_record_wf(logs@, #[trigger] records@[i]),
        start <= through <= tail,
    ensures
        records_contiguous(taken@, start as int, through as int),
        forall|i: int| 0 <= i < taken@.len() ==> stream_record_wf(logs@, #[trigger] taken@[i]),
        forall|byte: int|
            start <= byte < through ==> #[trigger] records_byte(logs@, taken@, byte)
                == records_byte(logs@, records@, byte),
        taken_up_to(records@, taken@, through as int),
{
    let mut taken: Vec<AppendStreamRunRecord> = Vec::new();
    let mut i: usize = 0;
    let mut next: u64 = start;
    proof {
        assert forall|i: int| 0 <= i < records@.len() implies (#[trigger] records@[i]).len > 0 by {
            assert(stream_record_wf(logs@, records@[i]));
        }
        lemma_records_cover(records@, start as int, tail as int, start as int);
    }
    while i < records.len() && next < through
        invariant
            i <= records@.len(),
            start <= next <= through <= tail,
            records_contiguous(records@, start as int, tail as int),
            forall|i: int|
                0 <= i < records@.len() ==> stream_record_wf(logs@, #[trigger] records@[i]),
            forall|a: int, b: int|
                0 <= a < b < records@.len() ==> (#[trigger] records@[a]).offset + records@[a].len
                    <= (#[trigger] records@[b]).offset,
            records_contiguous(taken@, start as int, next as int),
            forall|k: int|
                0 <= k < taken@.len() ==> stream_record_wf(logs@, #[trigger] taken@[k]),
            next < through ==> next == (if i == 0 {
                start as int
            } else {
                records@[i - 1].offset + records@[i - 1].len
            }),
            forall|byte: int|
                start <= byte < next ==> #[trigger] records_byte(logs@, taken@, byte)
                    == records_byte(logs@, records@, byte),
            taken@.len() == i,
            taken_up_to(records@, taken@, through as int),
        decreases records@.len() - i,
    {
        let record = records[i];
        let ghost before = taken@;
        proof {
            assert(stream_record_wf(logs@, records@[i as int]));
            if i > 0 {
                assert(records@[i - 1].offset + records@[i - 1].len == records@[i as int].offset);
            }
        }
        let end: u64 = record.offset + record.len;
        let piece = if end <= through {
            record
        } else {
            slice_record(&record, record.offset, through, logs)
        };
        taken.push(piece);
        let stop: u64 = if end <= through {
            end
        } else {
            through
        };
        proof {
            assert(taken@.drop_last() =~= before);
            assert(records_contiguous(taken@, start as int, stop as int)) by {
                assert forall|a: int, b: int| 0 <= a && b == a + 1 && b < taken@.len() implies (
                #[trigger] taken@[a]).offset + taken@[a].len == (#[trigger] taken@[b]).offset by {
                    if b < before.len() {
                        assert(taken@[a] == before[a] && taken@[b] == before[b]);
                    } else {
                        assert(taken@[a] == before.last());
                    }
                }
            }
            assert forall|byte: int| start <= byte < stop implies #[trigger] records_byte(
                logs@,
                taken@,
                byte,
            ) == records_byte(logs@, records@, byte) by {
                if byte >= next {
                    lemma_record_decides(logs@, records@, i as int, byte);
                    assert(record_byte(logs@, piece, byte) == record_byte(logs@, record, byte));
                } else {
                    assert(records_byte(logs@, before, byte) == records_byte(
                        logs@,
                        records@,
                        byte,
                    ));
                }
            }
        }
        next = stop;
        i = i + 1;
    }
    proof {
        if next < through {
            assert(i == records@.len());
            if i > 0 {
                assert(records@.last() == records@[i - 1]);
            }
        }
    }
    taken
}

/// The records from a place on, the first one cut there.
#[verifier::rlimit(60)]
fn records_after(
    records: &Vec<AppendStreamRunRecord>,
    start: u64,
    tail: u64,
    through: u64,
    logs: Ghost<RunLogMap>,
) -> (kept: Vec<AppendStreamRunRecord>)
    requires
        records_contiguous(records@, start as int, tail as int),
        forall|i: int|
            0 <= i < records@.len() ==> stream_record_wf(logs@, #[trigger] records@[i]),
        start <= through <= tail,
    ensures
        records_contiguous(kept@, through as int, tail as int),
        forall|i: int| 0 <= i < kept@.len() ==> stream_record_wf(logs@, #[trigger] kept@[i]),
        forall|byte: int|
            through <= byte < tail ==> #[trigger] records_byte(logs@, kept@, byte)
                == records_byte(logs@, records@, byte),
{
    let mut kept: Vec<AppendStreamRunRecord> = Vec::new();
    let mut i: usize = 0;
    proof {
        assert forall|i: int| 0 <= i < records@.len() implies (#[trigger] records@[i]).len > 0 by {
            assert(stream_record_wf(logs@, records@[i]));
        }
        lemma_records_cover(records@, start as int, tail as int, start as int);
    }
    let ghost reached: int = start as int;
    while i < records.len()
        invariant
            i <= records@.len(),
            start <= through <= tail,
            records_contiguous(records@, start as int, tail as int),
            forall|i: int|
                0 <= i < records@.len() ==> stream_record_wf(logs@, #[trigger] records@[i]),
            forall|a: int, b: int|
                0 <= a < b < records@.len() ==> (#[trigger] records@[a]).offset + records@[a].len
                    <= (#[trigger] records@[b]).offset,
            reached == (if i == 0 {
                start as int
            } else {
                records@[i - 1].offset + records@[i - 1].len
            }),
            reached <= through ==> kept@.len() == 0,
            reached > through ==> records_contiguous(kept@, through as int, reached),
            forall|k: int| 0 <= k < kept@.len() ==> stream_record_wf(logs@, #[trigger] kept@[k]),
            forall|byte: int|
                through <= byte < reached ==> #[trigger] records_byte(logs@, kept@, byte)
                    == records_byte(logs@, records@, byte),
        decreases records@.len() - i,
    {
        let record = records[i];
        let ghost before = kept@;
        proof {
            assert(stream_record_wf(logs@, records@[i as int]));
            if i > 0 {
                assert(records@[i - 1].offset + records@[i - 1].len == records@[i as int].offset);
            }
        }
        let end: u64 = record.offset + record.len;
        if end > through {
            let piece = if record.offset < through {
                slice_record(&record, through, end, logs)
            } else {
                record
            };
            kept.push(piece);
            proof {
                assert(kept@.drop_last() =~= before);
                assert(records_contiguous(kept@, through as int, end as int)) by {
                    assert forall|a: int, b: int| 0 <= a && b == a + 1 && b < kept@.len() implies (
                    #[trigger] kept@[a]).offset + kept@[a].len == (
                    #[trigger] kept@[b]).offset by {
                        if b < before.len() {
                            assert(kept@[a] == before[a] && kept@[b] == before[b]);
                        } else {
                            assert(kept@[a] == before.last());
                        }
                    }
                }
                assert forall|byte: int| through <= byte < end implies #[trigger] records_byte(
                    logs@,
                    kept@,
                    byte,
                ) == records_byte(logs@, records@, byte) by {
                    if byte >= record.offset {
                        lemma_record_decides(logs@, records@, i as int, byte);
                        assert(record_byte(logs@, piece, byte) == record_byte(
                            logs@,
                            record,
                            byte,
                        ));
                    } else {
                        assert(records_byte(logs@, before, byte) == records_byte(
                            logs@,
                            records@,
                            byte,
                        ));
                    }
                }
            }
        }
        proof {
            reached = end as int;
        }
        i = i + 1;
    }
    proof {
        if records@.len() > 0 {
            assert(records@.last() == records@[i - 1]);
        }
    }
    kept
}

impl MetadataInner {
    pub(crate) fn is_token_open(&self, token: &AppendStream) -> (open: bool)
        ensures
            open == token_open(self.append_streams@, *token),
    {
        match self.append_streams.get(token.stream_id.raw()) {
            Some(stream) => {
                let active = match stream.state.status {
                    AppendStreamStatus::Active => true,
                    _ => false,
                };
                active && stream.state.keyspace_id.0 == token.keyspace_id.0
                    && stream.state.file_id.0 == token.file_id.0 && stream.state.stream_id.0
                    == token.stream_id.0 && stream.state.writer_epoch.0 == token.writer_epoch.0
                    && stream.state.base_version.0 == token.base_version.0
                    && stream.state.visible_base_size == token.visible_base_size
            },
            None => false,
        }
    }

    /// The range that the next bytes of a stream take.
    pub fn prepare_append_stream_range(&self, token: &AppendStream, len: u64) -> (result: Result<
        ByteRange,
        StorageError,
    >)
        ensures
            result is Ok <==> token_open(self.append_streams@, *token) && len > 0
                && self.append_streams@[token.stream_id.0].accepted_tail + len <= u64::MAX,
            result matches Ok(range) ==> range == (ByteRange {
                offset: self.append_streams@[token.stream_id.0].accepted_tail,
                len,
            }),
            !token_open(self.append_streams@, *token) ==> result == Err::<ByteRange, StorageError>(
                StorageError::Conflict { message: "stale append stream" },
            ),
            token_open(self.append_streams@, *token) ==> (result matches Err(error)
                ==> error is InvalidArgument),
    {
        if !self.is_token_open(token) {
            return Err(StorageError::conflict("stale append stream"));
        }
        let tail: u64 = match self.append_streams.get(token.stream_id.raw()) {
            Some(stream) => stream.accepted_tail,
            None => return Err(StorageError::conflict("stale append stream")),
        };
        if len == 0 {
            return Err(StorageError::invalid_argument("append payload must not be empty"));
        }
        if len > u64::MAX - tail {
            return Err(StorageError::invalid_argument("append stream range overflows"));
        }
        Ok(ByteRange { offset: tail, len })
    }

    /// The records between the published part of a stream and a place.
    pub fn append_stream_publish_records(
        &self,
        token: &AppendStream,
        visible_size: u64,
        publish_through: u64,
        logs: Ghost<RunLogMap>,
    ) -> (result: Result<Vec<AppendStreamRunRecord>, StorageError>)
        requires
            streams_wf(logs@, self.append_streams@, self.next_append_stream_id),
        ensures
            result is Ok <==> token_open(self.append_streams@, *token)
                && self.append_streams@[token.stream_id.0].state.published_through == visible_size
                && visible_size < publish_through
                <= self.append_streams@[token.stream_id.0].accepted_tail,
            result matches Ok(records) ==> records_contiguous(
                records@,
                visible_size as int,
                publish_through as int,
            ) && (forall|i: int|
                0 <= i < records@.len() ==> stream_record_wf(logs@, #[trigger] records@[i])) && (
            forall|byte: int|
                visible_size <= byte < publish_through ==> #[trigger] records_byte(
                    logs@,
                    records@,
                    byte,
                ) == records_byte(
                    logs@,
                    self.append_streams@[token.stream_id.0].state.records@,
                    byte,
                )) && taken_up_to(
                self.append_streams@[token.stream_id.0].state.records@,
                records@,
                publish_through as int,
            ),
            result matches Err(error) ==> error is Conflict,
    {
        if !self.is_token_open(token) {
            return Err(StorageError::conflict("stale append stream"));
        }
        match self.append_streams.get(token.stream_id.raw()) {
            Some(stream) => {
                assert(stream_wf(logs@, *stream, token.stream_id.0));
                if stream.state.published_through != visible_size {
                    return Err(
                        StorageError::conflict("append stream is behind the visible file size"),
                    );
                }
                if publish_through <= visible_size || publish_through > stream.accepted_tail {
                    return Err(
                        StorageError::conflict("append publish range is outside the stream"),
                    );
                }
                Ok(
                    records_before(
                        &stream.state.records,
                        visible_size,
                        stream.accepted_tail,
                        publish_through,
                        logs,
                    ),
                )
            },
            None => Err(StorageError::conflict("stale append stream")),
        }
    }

    /// Notes that a stream is published up to a place.
    pub fn mark_append_stream_published(
        &mut self,
        token: &AppendStream,
        publish_through: u64,
        logs: Ghost<RunLogMap>,
    ) -> (result: Result<(), StorageError>)
        requires
            streams_wf(logs@, old(self).append_streams@, old(self).next_append_stream_id),
        ensures
            streams_wf(logs@, final(self).append_streams@, final(self).next_append_stream_id),
            *final(self) == (MetadataInner {
                append_streams: final(self).append_streams,
                ..*old(self)
            }),
            result is Ok <==> token_open(old(self).append_streams@, *token) && old(
                self,
            ).append_streams@[token.stream_id.0].state.published_through <= publish_through <= old(
                self,
            ).append_streams@[token.stream_id.0].accepted_tail,
            result is Ok ==> published_stream(
                old(self).append_streams@[token.stream_id.0],
                final(self).append_streams@[token.stream_id.0],
                logs@,
                publish_through,
            ) && final(self).append_streams@.dom() == old(self).append_streams@.dom()
                && final(self).append_streams@.remove(token.stream_id.0) == old(
                self,
            ).append_streams@.remove(token.stream_id.0),
            result matches Err(error) ==> error is Conflict && *final(self) == *old(self),
    {
        let ghost before = *self;
        if !self.is_token_open(token) {
            return Err(StorageError::conflict("stale append stream"));
        }
        let id = token.stream_id.raw();
        let (published, tail) = match self.append_streams.get(id) {
            Some(stream) => (stream.state.published_through, stream.accepted_tail),
            None => return Err(StorageError::conflict("stale append stream")),
        };
        if publish_through < published || publish_through > tail {
            return Err(StorageError::conflict("append publish range is outside the stream"));
        }
        assert(stream_wf(logs@, before.append_streams@[id], id));
        if let Some(stream) = self.append_streams.remove(id) {
            let LiveAppendStream { state, accepted_tail, base_writer_epoch } = stream;
            let records = records_after(
                &state.records,
                published,
                accepted_tail,
                publish_through,
                logs,
            );
            let durable_through: u64 = if state.durable_through >= publish_through {
                state.durable_through
            } else {
                publish_through
            };
            let next = LiveAppendStream {
                state: AppendStreamState {
                    published_through: publish_through,
                    durable_through,
                    records,
                    ..state
                },
                accepted_tail,
                base_writer_epoch,
            };
            self.append_streams.insert(id, next);
            proof {
                assert(self.append_streams@.dom() =~= before.append_streams@.dom());
                assert(self.append_streams@.remove(id) =~= before.append_streams@.remove(id));
                assert(stream_wf(logs@, next, id));
                assert forall|other: u128| #[trigger] self.append_streams@.contains_key(
                    other,
                ) implies other < self.next_append_stream_id && stream_wf(
                    logs@,
                    self.append_streams@[other],
                    other,
                ) by {
                    assert(before.append_streams@.contains_key(other));
                }
            }
        }
        Ok(())
    }
}

/// The writer epoch that a file has come to.
pub open spec fn file_epoch(
    epochs: Seq<FileWriterEpoch>,
    keyspace_id: KeyspaceId,
    file_id: FileId,
) -> u64
    decreases epochs.len(),
{
    if epochs.len() == 0 {
        0
    } else if epochs.last().keyspace_id == keyspace_id && epochs.last().file_id == file_id {
        epochs.last().writer_epoch.0
    } else {
        file_epoch(epochs.drop_last(), keyspace_id, file_id)
    }
}

/// The index of a file's epoch, or the length where it has none.
fn find_epoch(epochs: &Vec<FileWriterEpoch>, keyspace_id: KeyspaceId, file_id: FileId) -> (index:
    usize)
    ensures
        index <= epochs@.len(),
        index < epochs@.len() ==> epochs@[index as int].keyspace_id == keyspace_id
            && epochs@[index as int].file_id == file_id && file_epoch(
            epochs@,
            keyspace_id,
            file_id,
        ) == epochs@[index as int].writer_epoch.0,
        forall|k: int|
            index < k < epochs@.len() ==> (#[trigger] epochs@[k]).keyspace_id != keyspace_id
                || epochs@[k].file_id != file_id,
        index == epochs@.len() ==> file_epoch(epochs@, keyspace_id, file_id) == 0 && forall|k: int|
            0 <= k < epochs@.len() ==> (#[trigger] epochs@[k]).keyspace_id != keyspace_id
                || epochs@[k].file_id != file_id,
{
    let mut i: usize = epochs.len();
    assert(epochs@.take(i as int) =~= epochs@);
    while i > 0
        invariant
            i <= epochs@.len(),
            file_epoch(epochs@, keyspace_id, file_id) == file_epoch(
                epochs@.take(i as int),
                keyspace_id,
                file_id,
            ),
            forall|k: int|
                i <= k < epochs@.len() ==> (#[trigger] epochs@[k]).keyspace_id != keyspace_id
                    || epochs@[k].file_id != file_id,
        decreases i,
    {
        proof {
            assert(epochs@.take(i as int).drop_last() =~= epochs@.take(i - 1));
        }
        if epochs[i - 1].keyspace_id.0 == keyspace_id.0 && epochs[i - 1].file_id.0 == file_id.0 {
            return i - 1;
        }
        i = i - 1;
    }
    epochs.len()
}

proof fn lemma_epoch_skips(
    epochs: Seq<FileWriterEpoch>,
    index: int,
    keyspace_id: KeyspaceId,
    file_id: FileId,
)
    requires
        0 <= index < epochs.len(),
        epochs[index].keyspace_id == keyspace_id,
        epochs[index].file_id == file_id,
        forall|k: int|
            index < k < epochs.len() ==> (#[trigger] epochs[k]).keyspace_id != keyspace_id
                || epochs[k].file_id != file_id,
    ensures
        file_epoch(epochs, keyspace_id, file_id) == epochs[index].writer_epoch.0,
    decreases epochs.len(),
{
    if index < epochs.len() - 1 {
        assert(epochs[epochs.len() - 1].keyspace_id != keyspace_id || epochs[epochs.len()
            - 1].file_id != file_id);
        let shorter = epochs.drop_last();
        assert forall|k: int| index < k < shorter.len() implies (
        #[trigger] shorter[k]).keyspace_id != keyspace_id || shorter[k].file_id != file_id by {
            assert(epochs[k].keyspace_id != keyspace_id || epochs[k].file_id != file_id);
        }
        lemma_epoch_skips(shorter, index, keyspace_id, file_id);
    }
}

proof fn lemma_epoch_same(
    before: Seq<FileWriterEpoch>,
    after: Seq<FileWriterEpoch>,
    index: int,
    keyspace_id: KeyspaceId,
    file_id: FileId,
)
    requires
        0 <= index < before.len(),
        after.len() == before.len(),
        forall|k: int| 0 <= k < before.len() && k != index ==> after[k] == before[k],
        after[index].keyspace_id == before[index].keyspace_id,
        after[index].file_id == before[index].file_id,
        before[index].keyspace_id != keyspace_id || before[index].file_id != file_id,
    ensures
        file_epoch(after, keyspace_id, file_id) == file_epoch(before, keyspace_id, file_id),
    decreases before.len(),
{
    if index < before.len() - 1 {
        lemma_epoch_same(before.drop_last(), after.drop_last(), index, keyspace_id, file_id);
    } else {
        assert(before.drop_last() =~= after.drop_last());
    }
}

/// Sets a file's epoch.
pub(crate) fn set_epoch(
    epochs: &mut Vec<FileWriterEpoch>,
    keyspace_id: KeyspaceId,
    file_id: FileId,
    writer_epoch: WriterEpoch,
)
    ensures
        file_epoch(final(epochs)@, keyspace_id, file_id) == writer_epoch.0,
        forall|k: KeyspaceId, f: FileId|
            k != keyspace_id || f != file_id ==> #[trigger] file_epoch(final(epochs)@, k, f)
                == file_epoch(old(epochs)@, k, f),
{
    let index = find_epoch(epochs, keyspace_id, file_id);
    let entry = FileWriterEpoch { keyspace_id, file_id, writer_epoch };
    let ghost before = epochs@;
    if index < epochs.len() {
        epochs.set(index, entry);
        proof {
            assert forall|k: int| index < k < epochs@.len() implies (
            #[trigger] epochs@[k]).keyspace_id != keyspace_id || epochs@[k].file_id != file_id by {
                assert(before[k].keyspace_id != keyspace_id || before[k].file_id != file_id);
            }
            lemma_epoch_skips(epochs@, index as int, keyspace_id, file_id);
            assert forall|k: KeyspaceId, f: FileId|
                k != keyspace_id || f != file_id implies #[trigger] file_epoch(epochs@, k, f)
                == file_epoch(before, k, f) by {
                lemma_epoch_same(before, epochs@, index as int, k, f);
            }
        }
    } else {
        epochs.push(entry);
        proof {
            assert(epochs@.drop_last() =~= before);
        }
    }
}

/// The epoch of a file.
pub(crate) fn epoch_of(
    epochs: &Vec<FileWriterEpoch>,
    keyspace_id: KeyspaceId,
    file_id: FileId,
) -> (epoch: u64)
    ensures
        epoch == file_epoch(epochs@, keyspace_id, file_id),
{
    let index = find_epoch(epochs, keyspace_id, file_id);
    if index < epochs.len() {
        epochs[index].writer_epoch.0
    } else {
        0
    }
}

impl MetadataInner {
    /// Opens a stream at the end of a file and fences those that were open.
    #[verifier::rlimit(40)]
    pub fn open_append_stream(
        &mut self,
        keyspace_id: KeyspaceId,
        file_id: FileId,
        block_size: Ghost<u64>,
        logs: Ghost<RunLogMap>,
    ) -> (result: Result<AppendStream, StorageError>)
        requires
            old(self).files_wf(block_size@),
            streams_wf(logs@, old(self).append_streams@, old(self).next_append_stream_id),
        ensures
            streams_wf(logs@, final(self).append_streams@, final(self).next_append_stream_id),
            *final(self) == (MetadataInner {
                append_streams: final(self).append_streams,
                file_writer_epochs: final(self).file_writer_epochs,
                next_append_stream_id: final(self).next_append_stream_id,
                ..*old(self)
            }),
            result is Ok <==> old(self).has_file(keyspace_id, file_id) && old(
                self,
            ).next_append_stream_id < u128::MAX && file_epoch(
                old(self).file_writer_epochs@,
                keyspace_id,
                file_id,
            ) < u64::MAX,
            result matches Ok(token) ==> {
                let head = old(self).file_head(keyspace_id, file_id)->0;
                &&& token == (AppendStream {
                    keyspace_id,
                    file_id,
                    stream_id: AppendStreamId(old(self).next_append_stream_id),
                    writer_epoch: WriterEpoch(
                        (file_epoch(old(self).file_writer_epochs@, keyspace_id, file_id)
                            + 1) as u64,
                    ),
                    base_version: head.version,
                    visible_base_size: head.size,
                })
                &&& token_open(final(self).append_streams@, token)
                &&& final(self).append_streams@[token.stream_id.0].accepted_tail == head.size
                &&& final(self).append_streams@[token.stream_id.0].state.published_through
                    == head.size
                &&& final(self).append_streams@[token.stream_id.0].state.records@.len() == 0
                &&& final(self).append_streams@.remove(token.stream_id.0) == old(
                    self,
                ).append_streams@.map_values(
                    |stream: LiveAppendStream| fenced(stream, keyspace_id, file_id),
                )
                &&& final(self).next_append_stream_id == token.stream_id.0 + 1
                &&& file_epoch(final(self).file_writer_epochs@, keyspace_id, file_id)
                    == token.writer_epoch.0
                &&& forall|other: AppendStream|
                    #![trigger token_open(final(self).append_streams@, other)]
                    token_open(final(self).append_streams@, other) && other.keyspace_id
                        == keyspace_id && other.file_id == file_id ==> other == token
            },
            result matches Err(error) ==> *final(self) == *old(self) && (
            !old(self).has_file(keyspace_id, file_id) ==> error is NotFound) && (old(
                self,
            ).has_file(keyspace_id, file_id) ==> error is Conflict),
    {
        let ghost before = *self;
        assert(self.files_wf(block_size@));
        let head = match self.get_file_head(keyspace_id, file_id) {
            Ok(head) => head,
            Err(error) => return Err(error),
        };
        if self.next_append_stream_id == u128::MAX {
            return Err(StorageError::conflict("append stream id overflow"));
        }
        let current: u64 = epoch_of(&self.file_writer_epochs, keyspace_id, file_id);
        if current == u64::MAX {
            return Err(StorageError::conflict("file writer epoch overflow"));
        }
        let writer_epoch = WriterEpoch(current + 1);
        let stream_id = AppendStreamId(self.next_append_stream_id);
        self.next_append_stream_id = self.next_append_stream_id + 1;
        set_epoch(&mut self.file_writer_epochs, keyspace_id, file_id, writer_epoch);
        self.invalidate_append_streams_for_file(keyspace_id, file_id);
        let ghost middle = self.append_streams@;
        proof {
            lemma_fenced_streams_wf(
                logs@,
                before.append_streams@,
                before.next_append_stream_id,
                keyspace_id,
                file_id,
            );
            assert(!middle.contains_key(stream_id.0));
        }
        let records: Vec<AppendStreamRunRecord> = Vec::new();
        let stream = LiveAppendStream {
            state: AppendStreamState {
                keyspace_id,
                file_id,
                stream_id,
                writer_epoch,
                base_version: head.version,
                visible_base_size: head.size,
                reserved_tail: head.size,
                durable_through: head.size,
                published_through: head.size,
                status: AppendStreamStatus::Active,
                records,
            },
            accepted_tail: head.size,
            base_writer_epoch: WriterEpoch(current),
        };
        self.append_streams.insert(stream_id.raw(), stream);
        let token = AppendStream {
            keyspace_id,
            file_id,
            stream_id,
            writer_epoch,
            base_version: head.version,
            visible_base_size: head.size,
        };
        proof {
            assert(self.append_streams@.remove(stream_id.0) =~= middle);
            assert(stream_wf(logs@, stream, stream_id.0));
            assert forall|id: u128| #[trigger] self.append_streams@.contains_key(id) implies id
                < self.next_append_stream_id && stream_wf(logs@, self.append_streams@[id], id) by {
                if id != stream_id.0 {
                    assert(middle.contains_key(id));
                }
            }
            assert forall|other: AppendStream|
                #![trigger token_open(self.append_streams@, other)]
                token_open(self.append_streams@, other) && other.keyspace_id == keyspace_id
                    && other.file_id == file_id implies other == token by {
                if other.stream_id != stream_id {
                    assert(middle.contains_key(other.stream_id.0));
                    assert(before.append_streams@.contains_key(other.stream_id.0));
                    assert(middle[other.stream_id.0] == fenced(
                        before.append_streams@[other.stream_id.0],
                        keyspace_id,
                        file_id,
                    ));
                }
            }
        }
        Ok(token)
    }

    /// Takes a run of bytes into a stream.
    pub fn record_append_stream_run(
        &mut self,
        token: &AppendStream,
        ticket_id: AppendTicketId,
        range: ByteRange,
        run: AppendLogRun,
        logs: Ghost<RunLogMap>,
    ) -> (result: Result<AppendTicket, StorageError>)
        requires
            streams_wf(logs@, old(self).append_streams@, old(self).next_append_stream_id),
            stream_record_wf(
                logs@,
                AppendStreamRunRecord { ticket_id, offset: range.offset, len: range.len, run },
            ),
        ensures
            streams_wf(logs@, final(self).append_streams@, final(self).next_append_stream_id),
            *final(self) == (MetadataInner {
                append_streams: final(self).append_streams,
                ..*old(self)
            }),
            result is Ok <==> token_open(old(self).append_streams@, *token) && range.offset == old(
                self,
            ).append_streams@[token.stream_id.0].accepted_tail,
            result matches Ok(ticket) ==> {
                let before = old(self).append_streams@[token.stream_id.0];
                let after = final(self).append_streams@[token.stream_id.0];
                &&& ticket == (AppendTicket {
                    keyspace_id: token.keyspace_id,
                    file_id: token.file_id,
                    stream_id: token.stream_id,
                    ticket_id,
                    writer_epoch: token.writer_epoch,
                    range,
                })
                &&& token_open(final(self).append_streams@, *token)
                &&& after.accepted_tail == range.end()
                &&& after.state.published_through == before.state.published_through
                &&& after.state.durable_through == before.state.durable_through
                &&& after.base_writer_epoch == before.base_writer_epoch
                &&& after.state.records@ == before.state.records@.push(
                    AppendStreamRunRecord {
                        ticket_id,
                        offset: range.offset,
                        len: range.len,
                        run,
                    },
                )
                &&& final(self).append_streams@.dom() == old(self).append_streams@.dom()
                &&& final(self).append_streams@.remove(token.stream_id.0) == old(
                    self,
                ).append_streams@.remove(token.stream_id.0)
            },
            result matches Err(error) ==> error is Conflict && *final(self) == *old(self),
    {
        let ghost before = *self;
        if !self.is_token_open(token) {
            return Err(StorageError::conflict("stale append stream"));
        }
        let id = token.stream_id.raw();
        let tail: u64 = match self.append_streams.get(id) {
            Some(stream) => stream.accepted_tail,
            None => return Err(StorageError::conflict("stale append stream")),
        };
        if tail != range.offset {
            return Err(StorageError::conflict("append run is not at the stream tail"));
        }
        assert(stream_wf(logs@, before.append_streams@[id], id));
        if let Some(stream) = self.append_streams.remove(id) {
            let LiveAppendStream { state, accepted_tail: _, base_writer_epoch } = stream;
            let AppendStreamState {
                keyspace_id,
                file_id,
                stream_id,
                writer_epoch,
                base_version,
                visible_base_size,
                reserved_tail: _,
                durable_through,
                published_through,
                status,
                mut records,
            } = state;
            let ghost old_records = records@;
            records.push(
                AppendStreamRunRecord { ticket_id, offset: range.offset, len: range.len, run },
            );
            let end: u64 = range.offset + range.len;
            let next = LiveAppendStream {
                state: AppendStreamState {
                    keyspace_id,
                    file_id,
                    stream_id,
                    writer_epoch,
                    base_version,
                    visible_base_size,
                    reserved_tail: end,
                    durable_through,
                    published_through,
                    status,
                    records,
                },
                accepted_tail: end,
                base_writer_epoch,
            };
            self.append_streams.insert(id, next);
            proof {
                assert(self.append_streams@.dom() =~= before.append_streams@.dom());
                assert(self.append_streams@.remove(id) =~= before.append_streams@.remove(id));
                let all = next.state.records@;
                assert(records_contiguous(all, published_through as int, end as int)) by {
                    assert forall|a: int, b: int| 0 <= a && b == a + 1 && b < all.len() implies (
                    #[trigger] all[a]).offset + all[a].len == (#[trigger] all[b]).offset by {
                        if b < old_records.len() {
                            assert(all[a] == old_records[a] && all[b] == old_records[b]);
                        } else {
                            assert(all[a] == old_records.last());
                        }
                    }
                    if old_records.len() > 0 {
                        assert(all[0] == old_records[0]);
                    }
                }
                assert(stream_wf(logs@, next, id)) by {
                    assert forall|i: int| 0 <= i < all.len() implies stream_record_wf(
                        logs@,
                        #[trigger] all[i],
                    ) by {
                        if i < old_records.len() {
                            assert(all[i] == old_records[i]);
                        }
                    }
                }
                assert forall|other: u128| #[trigger] self.append_streams@.contains_key(
                    other,
                ) implies other < self.next_append_stream_id && stream_wf(
                    logs@,
                    self.append_streams@[other],
                    other,
                ) by {
                    assert(before.append_streams@.contains_key(other));
                }
            }
        }
        Ok(
            AppendTicket {
                keyspace_id: token.keyspace_id,
                file_id: token.file_id,
                stream_id: token.stream_id,
                ticket_id,
                writer_epoch: token.writer_epoch,
                range,
            },
        )
    }

    /// Notes that all that a stream took in is durable.
    pub fn mark_append_stream_durable(&mut self, token: &AppendStream, logs: Ghost<RunLogMap>)
        -> (result: Result<(), StorageError>)
        requires
            streams_wf(logs@, old(self).append_streams@, old(self).next_append_stream_id),
        ensures
            streams_wf(logs@, final(self).append_streams@, final(self).next_append_stream_id),
            *final(self) == (MetadataInner {
                append_streams: final(self).append_streams,
                ..*old(self)
            }),
            result is Ok <==> token_open(old(self).append_streams@, *token),
            result is Ok ==> final(self).append_streams@ == old(self).append_streams@.insert(
                token.stream_id.0,
                LiveAppendStream {
                    state: AppendStreamState {
                        durable_through: old(
                            self,
                        ).append_streams@[token.stream_id.0].accepted_tail,
                        ..old(self).append_streams@[token.stream_id.0].state
                    },
                    ..old(self).append_streams@[token.stream_id.0]
                },
            ),
            result matches Err(error) ==> error is Conflict && *final(self) == *old(self),
    {
        let ghost before = *self;
        if !self.is_token_open(token) {
            return Err(StorageError::conflict("stale append stream"));
        }
        let id = token.stream_id.raw();
        assert(stream_wf(logs@, before.append_streams@[id], id));
        if let Some(stream) = self.append_streams.remove(id) {
            let LiveAppendStream { state, accepted_tail, base_writer_epoch } = stream;
            let next = LiveAppendStream {
                state: AppendStreamState { durable_through: accepted_tail, ..state },
                accepted_tail,
                base_writer_epoch,
            };
            self.append_streams.insert(id, next);
            proof {
                assert(self.append_streams@ =~= before.append_streams@.insert(id, next));
                assert forall|other: u128| #[trigger] self.append_streams@.contains_key(
                    other,
                ) implies other < self.next_append_stream_id && stream_wf(
                    logs@,
                    self.append_streams@[other],
                    other,
                ) by {
                    assert(before.append_streams@.contains_key(other));
                }
            }
        }
        Ok(())
    }

    /// Ends a stream.
    pub fn end_append_stream(
        &mut self,
        token: &AppendStream,
        status: AppendStreamStatus,
        logs: Ghost<RunLogMap>,
    ) -> (result: Result<(), StorageError>)
        requires
            streams_wf(logs@, old(self).append_streams@, old(self).next_append_stream_id),
            status != AppendStreamStatus::Active,
        ensures
            streams_wf(logs@, final(self).append_streams@, final(self).next_append_stream_id),
            *final(self) == (MetadataInner {
                append_streams: final(self).append_streams,
                ..*old(self)
            }),
            result is Ok <==> token_open(old(self).append_streams@, *token),
            result is Ok ==> final(self).append_streams@ == old(self).append_streams@.insert(
                token.stream_id.0,
                LiveAppendStream {
                    state: AppendStreamState {
                        status,
                        ..old(self).append_streams@[token.stream_id.0].state
                    },
                    ..old(self).append_streams@[token.stream_id.0]
                },
            ) && !token_open(final(self).append_streams@, *token),
            result matches Err(error) ==> error is Conflict && *final(self) == *old(self),
    {
        let ghost before = *self;
        if !self.is_token_open(token) {
            return Err(StorageError::conflict("stale append stream"));
        }
        let id = token.stream_id.raw();
        assert(stream_wf(logs@, before.append_streams@[id], id));
        if let Some(stream) = self.append_streams.remove(id) {
            let LiveAppendStream { state, accepted_tail, base_writer_epoch } = stream;
            let next = LiveAppendStream {
                state: AppendStreamState { status, ..state },
                accepted_tail,
                base_writer_epoch,
            };
            self.append_streams.insert(id, next);
            proof {
                assert(self.append_streams@ =~= before.append_streams@.insert(id, next));
                assert forall|other: u128| #[trigger] self.append_streams@.contains_key(
                    other,
                ) implies other < self.next_append_stream_id && stream_wf(
                    logs@,
                    self.append_streams@[other],
                    other,
                ) by {
                    assert(before.append_streams@.contains_key(other));
                }
            }
        }
        Ok(())
    }

    /// Takes in a request to publish a stream up to a place.
    pub fn submit_append_publish(&mut self, token: &AppendStream, publish_through: u64) -> (result:
        Result<AppendPublishTicket, StorageError>)
        ensures
            *final(self) == (MetadataInner {
                append_publish_tickets: final(self).append_publish_tickets,
                next_append_publish_ticket_id: final(self).next_append_publish_ticket_id,
                ..*old(self)
            }),
            result is Ok <==> token_open(old(self).append_streams@, *token) && old(
                self,
            ).append_streams@[token.stream_id.0].state.published_through < publish_through <= old(
                self,
            ).append_streams@[token.stream_id.0].accepted_tail && old(
                self,
            ).next_append_publish_ticket_id < u128::MAX,
            result matches Ok(ticket) ==> {
                &&& ticket == (AppendPublishTicket {
                    keyspace_id: token.keyspace_id,
                    file_id: token.file_id,
                    stream_id: token.stream_id,
                    ticket_id: AppendPublishTicketId(old(self).next_append_publish_ticket_id),
                    writer_epoch: token.writer_epoch,
                    publish_through,
                })
                &&& final(self).append_publish_tickets@ == old(
                    self,
                ).append_publish_tickets@.insert(
                    ticket.ticket_id.0,
                    AppendPublishTicketRecord { ticket, stream: *token, completed: None },
                )
            },
            final(self).next_append_publish_ticket_id == if old(self).next_append_publish_ticket_id
                == u128::MAX {
                u128::MAX as int
            } else {
                old(self).next_append_publish_ticket_id + 1
            },
            result matches Err(error) ==> final(self).append_publish_tickets == old(
                self,
            ).append_publish_tickets && (error is Conflict || error is InvalidArgument),
            !token_open(old(self).append_streams@, *token) ==> (result matches Err(error)
                && error is Conflict),
    {
        if self.next_append_publish_ticket_id == u128::MAX {
            return Err(StorageError::conflict("append publish ticket id overflow"));
        }
        let ticket_id = AppendPublishTicketId(self.next_append_publish_ticket_id);
        self.next_append_publish_ticket_id = self.next_append_publish_ticket_id + 1;
        if !self.is_token_open(token) {
            return Err(StorageError::conflict("stale append stream"));
        }
        let (published, tail) = match self.append_streams.get(token.stream_id.raw()) {
            Some(stream) => (stream.state.published_through, stream.accepted_tail),
            None => return Err(StorageError::conflict("stale append stream")),
        };
        if publish_through <= published || publish_through > tail {
            return Err(
                StorageError::invalid_argument("append publish range is outside the stream"),
            );
        }
        let ticket = AppendPublishTicket {
            keyspace_id: token.keyspace_id,
            file_id: token.file_id,
            stream_id: token.stream_id,
            ticket_id,
            writer_epoch: token.writer_epoch,
            publish_through,
        };
        self.append_publish_tickets.insert(
            ticket.ticket_id.raw(),
            AppendPublishTicketRecord { ticket, stream: *token, completed: None },
        );
        Ok(ticket)
    }

    /// What is known of a publish ticket.
    pub fn append_publish_ticket_status(&self, ticket: &AppendPublishTicket) -> (result: Result<
        AppendPublishTicketRecord,
        StorageError,
    >)
        ensures
            result is Ok <==> self.append_publish_tickets@.contains_key(ticket.ticket_id.0)
                && self.append_publish_tickets@[ticket.ticket_id.0].ticket == *ticket,
            result matches Ok(record) ==> record
                == self.append_publish_tickets@[ticket.ticket_id.0],
            result matches Err(error) ==> error == (StorageError::Conflict {
                message: "stale append publish ticket",
            }),
    {
        match self.append_publish_tickets.get(ticket.ticket_id.raw()) {
            Some(record) => {
                if record.ticket == *ticket {
                    Ok(*record)
                } else {
                    Err(StorageError::conflict("stale append publish ticket"))
                }
            },
            None => Err(StorageError::conflict("stale append publish ticket")),
        }
    }
}

} // verus!
