//! The records of the block journal.
use vstd::prelude::*;

use crate::checksum::{checksum, data_log_checksum};
use crate::codec::{durable_codec_error, lemma_drop_tag, lemma_split_unique, lemma_starts_with_value, pair_same, pair_wire, DurableCodec, DurableDecoder, DurableEncode, DurableEncoder};
use crate::error::StorageError;
use crate::block_api::{ByteRange, PayloadIntegrity};
use crate::id::{CommitSeq, DeviceId, SegmentId, StorageNodeId, WriterEpoch};
use crate::metadata_records::SegmentPayloadIntegrity;

verus! {

/// One range of a journaled commit.
#[derive(Clone, Debug, PartialEq, Eq)]
pub enum BlockJournalEntry {
    Write { range: ByteRange, payload_integrity: PayloadIntegrity, bytes: Vec<u8> },
    Segment {
        range: ByteRange,
        storage_node: StorageNodeId,
        segment_id: SegmentId,
        segment_offset: u64,
        integrity: SegmentPayloadIntegrity,
    },
    Sparse { range: ByteRange },
}

impl BlockJournalEntry {
    /// The byte that tells the variants apart.
    pub open spec fn tag(&self) -> u8 {
        match self {
            BlockJournalEntry::Write { .. } => 1,
            BlockJournalEntry::Segment { .. } => 3,
            BlockJournalEntry::Sparse { .. } => 2,
        }
    }

    /// The bytes behind the tag.
    pub open spec fn body(&self) -> Seq<u8> {
        match *self {
            BlockJournalEntry::Write { range, payload_integrity, bytes } => (range, (payload_integrity, bytes)).wire(),
            BlockJournalEntry::Segment { range, storage_node, segment_id, segment_offset, integrity } => ((range, (storage_node, (segment_id, segment_offset))), integrity).wire(),
            BlockJournalEntry::Sparse { range } => range.wire(),
        }
    }
}

impl DurableEncode for BlockJournalEntry {
    #[verifier::opaque]
    open spec fn wire(&self) -> Seq<u8> {
        seq![self.tag()] + self.body()
    }

    open spec fn durable(&self) -> bool {
        match *self {
            BlockJournalEntry::Write { range, payload_integrity, bytes } => (range, (payload_integrity, bytes)).durable(),
            BlockJournalEntry::Segment { range, storage_node, segment_id, segment_offset, integrity } => ((range, (storage_node, (segment_id, segment_offset))), integrity).durable(),
            BlockJournalEntry::Sparse { range } => range.durable(),
        }
    }

    fn encode(&self, out: &mut DurableEncoder) -> (result: Result<(), StorageError>) {
        reveal(pair_wire);
        reveal(<BlockJournalEntry as DurableEncode>::wire);
        match self {
            BlockJournalEntry::Write { range, payload_integrity, bytes } => {
                out.put_u8(1);
                (range, (payload_integrity, bytes)).encode(out)?;
            },
            BlockJournalEntry::Segment { range, storage_node, segment_id, segment_offset, integrity } => {
                out.put_u8(3);
                ((range, (storage_node, (segment_id, segment_offset))), integrity).encode(out)?;
            },
            BlockJournalEntry::Sparse { range } => {
                out.put_u8(2);
                range.encode(out)?;
            },
        }
        assert(out@ =~= old(out)@ + self.wire());
        Ok(())
    }
}

impl DurableCodec for BlockJournalEntry {
    open spec fn same(&self, other: &BlockJournalEntry) -> bool {
        match (*self, *other) {
            (BlockJournalEntry::Write { range, payload_integrity, bytes }, BlockJournalEntry::Write { range: other_range, payload_integrity: other_payload_integrity, bytes: other_bytes }) => {
                (range, (payload_integrity, bytes)).same(&(other_range, (other_payload_integrity, other_bytes)))
            },
            (BlockJournalEntry::Segment { range, storage_node, segment_id, segment_offset, integrity }, BlockJournalEntry::Segment { range: other_range, storage_node: other_storage_node, segment_id: other_segment_id, segment_offset: other_segment_offset, integrity: other_integrity }) => {
                ((range, (storage_node, (segment_id, segment_offset))), integrity).same(&((other_range, (other_storage_node, (other_segment_id, other_segment_offset))), other_integrity))
            },
            (BlockJournalEntry::Sparse { range }, BlockJournalEntry::Sparse { range: other_range }) => {
                range.same(&other_range)
            },
            _ => false,
        }
    }

    proof fn lemma_unambiguous(a: &BlockJournalEntry, b: &BlockJournalEntry, a_tail: Seq<u8>, b_tail: Seq<u8>) {
        reveal(<BlockJournalEntry as DurableEncode>::wire);
        lemma_drop_tag(a.tag(), a.body(), a_tail);
        lemma_drop_tag(b.tag(), b.body(), b_tail);
        match (*a, *b) {
            (BlockJournalEntry::Write { range, payload_integrity, bytes }, BlockJournalEntry::Write { range: b_range, payload_integrity: b_payload_integrity, bytes: b_bytes }) => {
                <(ByteRange, (PayloadIntegrity, Vec<u8>))>::lemma_unambiguous(&(range, (payload_integrity, bytes)), &(b_range, (b_payload_integrity, b_bytes)), a_tail, b_tail);
            },
            (BlockJournalEntry::Segment { range, storage_node, segment_id, segment_offset, integrity }, BlockJournalEntry::Segment { range: b_range, storage_node: b_storage_node, segment_id: b_segment_id, segment_offset: b_segment_offset, integrity: b_integrity }) => {
                <((ByteRange, (StorageNodeId, (SegmentId, u64))), SegmentPayloadIntegrity)>::lemma_unambiguous(&((range, (storage_node, (segment_id, segment_offset))), integrity), &((b_range, (b_storage_node, (b_segment_id, b_segment_offset))), b_integrity), a_tail, b_tail);
            },
            (BlockJournalEntry::Sparse { range }, BlockJournalEntry::Sparse { range: b_range }) => {
                ByteRange::lemma_unambiguous(&range, &b_range, a_tail, b_tail);
            },
            _ => {},
        }
    }

    fn decode(input: &mut DurableDecoder<'_>) -> (result: Result<BlockJournalEntry, StorageError>) {
        reveal(<BlockJournalEntry as DurableEncode>::wire);
        let ghost whole = input.rest();
        let tag: u8 = match input.u8() {
            Ok(tag) => tag,
            Err(error) => {
                proof {
                    assert forall|value: BlockJournalEntry, tail: Seq<u8>| #[trigger]
                        (value.wire() + tail) == whole implies false by {
                        assert((value.wire() + tail).len() >= 1);
                    }
                }
                return Err(error);
            },
        };
        let ghost rest = input.rest();
        proof {
            assert forall|value: BlockJournalEntry, tail: Seq<u8>| #[trigger]
                (value.wire() + tail) == whole implies value.tag() == tag && rest == value.body()
                + tail by {
                lemma_drop_tag(value.tag(), value.body(), tail);
                assert(whole.skip(1) =~= rest);
            }
        }
        match tag {
            1 => match <(ByteRange, (PayloadIntegrity, Vec<u8>))>::decode(input) {
                Ok((range, (payload_integrity, bytes))) => {
                    let value = BlockJournalEntry::Write { range, payload_integrity, bytes };
                    proof {
                        assert(whole =~= value.wire() + input.rest());
                        lemma_starts_with_value(value, input.rest());
                    }
                    Ok(value)
                },
                Err(error) => {
                    proof {
                        assert forall|value: BlockJournalEntry, tail: Seq<u8>|
                            value.durable() && #[trigger] (value.wire() + tail) == whole implies false by {
                            match value {
                                BlockJournalEntry::Write { range, payload_integrity, bytes } => {
                                    lemma_starts_with_value((range, (payload_integrity, bytes)), tail);
                                },
                                _ => {},
                            }
                        }
                    }
                    Err(error)
                },
            },
            3 => match <((ByteRange, (StorageNodeId, (SegmentId, u64))), SegmentPayloadIntegrity)>::decode(input) {
                Ok(((range, (storage_node, (segment_id, segment_offset))), integrity)) => {
                    let value = BlockJournalEntry::Segment { range, storage_node, segment_id, segment_offset, integrity };
                    proof {
                        assert(whole =~= value.wire() + input.rest());
                        lemma_starts_with_value(value, input.rest());
                    }
                    Ok(value)
                },
                Err(error) => {
                    proof {
                        assert forall|value: BlockJournalEntry, tail: Seq<u8>|
                            value.durable() && #[trigger] (value.wire() + tail) == whole implies false by {
                            match value {
                                BlockJournalEntry::Segment { range, storage_node, segment_id, segment_offset, integrity } => {
                                    lemma_starts_with_value(((range, (storage_node, (segment_id, segment_offset))), integrity), tail);
                                },
                                _ => {},
                            }
                        }
                    }
                    Err(error)
                },
            },
            2 => match ByteRange::decode(input) {
                Ok(range) => {
                    let value = BlockJournalEntry::Sparse { range };
                    proof {
                        assert(whole =~= value.wire() + input.rest());
                        lemma_starts_with_value(value, input.rest());
                    }
                    Ok(value)
                },
                Err(error) => {
                    proof {
                        assert forall|value: BlockJournalEntry, tail: Seq<u8>|
                            value.durable() && #[trigger] (value.wire() + tail) == whole implies false by {
                            match value {
                                BlockJournalEntry::Sparse { range } => {
                                    lemma_starts_with_value(range, tail);
                                },
                                _ => {},
                            }
                        }
                    }
                    Err(error)
                },
            },
            _ => Err(durable_codec_error("invalid block journal entry kind")),
        }
    }
}

/// A block commit as the journal keeps it.
#[derive(Clone, Debug, PartialEq, Eq)]
pub struct BlockJournalCommit {
    pub device_id: DeviceId,
    pub writer_epoch: WriterEpoch,
    pub commit_seq: CommitSeq,
    pub write_count: u64,
    pub collapsed_range_count: u64,
    pub committed_bytes: u64,
    pub entries: Vec<BlockJournalEntry>,
}

impl BlockJournalCommit {
    pub open spec fn fields(self) -> ((DeviceId, (WriterEpoch, (CommitSeq, u64))), (u64, (u64, Vec<BlockJournalEntry>))) {
        ((self.device_id, (self.writer_epoch, (self.commit_seq, self.write_count))), (self.collapsed_range_count, (self.committed_bytes, self.entries)))
    }
}

impl DurableEncode for BlockJournalCommit {
    #[verifier::opaque]
    open spec fn wire(&self) -> Seq<u8> {
        seq![1u8] + self.fields().wire()
    }

    open spec fn durable(&self) -> bool {
        self.fields().durable()
    }

    fn encode(&self, out: &mut DurableEncoder) -> (result: Result<(), StorageError>) {
        reveal(pair_wire);
        reveal(<BlockJournalCommit as DurableEncode>::wire);
        out.put_u8(1);
        ((&self.device_id, (&self.writer_epoch, (&self.commit_seq, &self.write_count))), (&self.collapsed_range_count, (&self.committed_bytes, &self.entries))).encode(out)?;
        assert(out@ =~= old(out)@ + self.wire());
        Ok(())
    }
}

impl DurableCodec for BlockJournalCommit {
    open spec fn same(&self, other: &BlockJournalCommit) -> bool {
        self.fields().same(&other.fields())
    }

    proof fn lemma_unambiguous(a: &BlockJournalCommit, b: &BlockJournalCommit, a_tail: Seq<u8>, b_tail: Seq<u8>) {
        reveal(<BlockJournalCommit as DurableEncode>::wire);
        lemma_drop_tag(1, a.fields().wire(), a_tail);
        lemma_drop_tag(1, b.fields().wire(), b_tail);
        <((DeviceId, (WriterEpoch, (CommitSeq, u64))), (u64, (u64, Vec<BlockJournalEntry>)))>::lemma_unambiguous(&a.fields(), &b.fields(), a_tail, b_tail);
        assert(a.same(b));
    }

    fn decode(input: &mut DurableDecoder<'_>) -> (result: Result<BlockJournalCommit, StorageError>) {
        reveal(<BlockJournalCommit as DurableEncode>::wire);
        let ghost whole = input.rest();
        let version: u8 = match input.u8() {
            Ok(version) => version,
            Err(error) => {
                proof {
                    assert forall|value: BlockJournalCommit, tail: Seq<u8>| #[trigger]
                        (value.wire() + tail) == whole implies false by {
                        assert((value.wire() + tail).len() >= 1);
                    }
                }
                return Err(error);
            },
        };
        let ghost rest = input.rest();
        proof {
            assert forall|value: BlockJournalCommit, tail: Seq<u8>| #[trigger]
                (value.wire() + tail) == whole implies version == 1 && rest
                == value.fields().wire() + tail by {
                lemma_drop_tag(1, value.fields().wire(), tail);
                assert(whole.skip(1) =~= rest);
            }
        }
        if version != 1 {
            return Err(durable_codec_error("invalid block journal commit version"));
        }
        match <((DeviceId, (WriterEpoch, (CommitSeq, u64))), (u64, (u64, Vec<BlockJournalEntry>)))>::decode(input) {
            Ok(((device_id, (writer_epoch, (commit_seq, write_count))), (collapsed_range_count, (committed_bytes, entries)))) => {
                let value = BlockJournalCommit { device_id, writer_epoch, commit_seq, write_count, collapsed_range_count, committed_bytes, entries };
                proof {
                    assert(whole =~= value.wire() + input.rest());
                    lemma_starts_with_value(value, input.rest());
                }
                Ok(value)
            },
            Err(error) => {
                proof {
                    assert forall|value: BlockJournalCommit, tail: Seq<u8>|
                        value.durable() && #[trigger] (value.wire() + tail) == whole implies false by {
                        lemma_starts_with_value(value.fields(), tail);
                    }
                }
                Err(error)
            },
        }
    }
}

/// One write of a packed record.
#[derive(Clone, Copy, Debug, PartialEq, Eq, Structural)]
pub struct PackedBlockJournalEntry {
    pub commit_seq_delta: u64,
    pub lba: u64,
    pub block_count: u64,
    pub payload_offset: u64,
    pub payload_integrity: PayloadIntegrity,
}

impl DurableEncode for PackedBlockJournalEntry {
    #[verifier::opaque]
    open spec fn wire(&self) -> Seq<u8> {
        self.fields().wire()
    }

    open spec fn durable(&self) -> bool {
        self.fields().durable()
    }

    fn encode(&self, out: &mut DurableEncoder) -> (result: Result<(), StorageError>) {
        reveal(pair_wire);
        reveal(<PackedBlockJournalEntry as DurableEncode>::wire);
        ((&self.commit_seq_delta, (&self.lba, (&self.block_count, &self.payload_offset))), &self.payload_integrity).encode(out)
    }
}

impl PackedBlockJournalEntry {
    pub open spec fn fields(self) -> ((u64, (u64, (u64, u64))), PayloadIntegrity) {
        ((self.commit_seq_delta, (self.lba, (self.block_count, self.payload_offset))), self.payload_integrity)
    }
}

impl DurableCodec for PackedBlockJournalEntry {
    open spec fn same(&self, other: &PackedBlockJournalEntry) -> bool {
        *self == *other
    }

    proof fn lemma_unambiguous(a: &PackedBlockJournalEntry, b: &PackedBlockJournalEntry, a_tail: Seq<u8>, b_tail: Seq<u8>) {
        reveal(<PackedBlockJournalEntry as DurableEncode>::wire);
        reveal(pair_same);
        <((u64, (u64, (u64, u64))), PayloadIntegrity)>::lemma_unambiguous(&a.fields(), &b.fields(), a_tail, b_tail);
        assert(a.same(b));
    }

    fn decode(input: &mut DurableDecoder<'_>) -> (result: Result<PackedBlockJournalEntry, StorageError>) {
        reveal(<PackedBlockJournalEntry as DurableEncode>::wire);
        let ghost whole = input.rest();
        match <((u64, (u64, (u64, u64))), PayloadIntegrity)>::decode(input) {
            Ok(((commit_seq_delta, (lba, (block_count, payload_offset))), payload_integrity)) => {
                let value = PackedBlockJournalEntry { commit_seq_delta, lba, block_count, payload_offset, payload_integrity };
                proof {
                    lemma_starts_with_value(value, input.rest());
                }
                Ok(value)
            },
            Err(error) => {
                proof {
                    assert forall|value: PackedBlockJournalEntry, tail: Seq<u8>|
                        value.durable() && #[trigger] (value.wire() + tail) == whole implies false by {
                        lemma_starts_with_value(value.fields(), tail);
                    }
                }
                Err(error)
            },
        }
    }
}

/// Inline writes of one writer, packed behind one payload.
#[derive(Clone, Debug, PartialEq, Eq)]
pub struct PackedBlockJournalWrites {
    pub device_id: DeviceId,
    pub writer_epoch: WriterEpoch,
    pub block_size: u64,
    pub first_commit_seq: CommitSeq,
    pub entries: Vec<PackedBlockJournalEntry>,
    pub payload_checksum: u64,
    pub payload_slab: Vec<u8>,
}

/// The payload bytes of the first `count` entries.
pub open spec fn packed_payload_len(
    entries: Seq<PackedBlockJournalEntry>,
    block_size: u64,
    count: int,
) -> nat
    decreases count,
{
    if count <= 0 {
        0
    } else {
        packed_payload_len(entries, block_size, count - 1) + (entries[count - 1].block_count
            * block_size) as nat
    }
}

pub proof fn lemma_packed_payload_len_monotone(
    entries: Seq<PackedBlockJournalEntry>,
    block_size: u64,
    low: int,
    high: int,
)
    requires
        0 <= low <= high <= entries.len(),
    ensures
        packed_payload_len(entries, block_size, low) <= packed_payload_len(
            entries,
            block_size,
            high,
        ),
    decreases high,
{
    if low < high {
        lemma_packed_payload_len_monotone(entries, block_size, low, high - 1);
    }
}

impl PackedBlockJournalWrites {
    /// Whether the entry's numbers fit and it continues the ones before it.
    pub open spec fn entry_valid(&self, i: int) -> bool {
        let entry = self.entries@[i];
        &&& self.first_commit_seq.0 + entry.commit_seq_delta <= u64::MAX
        &&& entry.block_count > 0
        &&& entry.block_count * self.block_size <= u64::MAX
        &&& entry.lba * self.block_size <= u64::MAX
        &&& entry.payload_offset == packed_payload_len(self.entries@, self.block_size, i)
        &&& i == 0 ==> entry.commit_seq_delta == 0
        &&& i > 0 ==> self.entries@[i - 1].commit_seq_delta < entry.commit_seq_delta
    }

    /// Whether the record stands for a list of writes.
    pub open spec fn valid(&self) -> bool {
        &&& self.block_size > 0
        &&& self.entries@.len() > 0
        &&& checksum(self.payload_slab@) == self.payload_checksum
        &&& forall|i: int| 0 <= i < self.entries@.len() ==> #[trigger] self.entry_valid(i)
        &&& packed_payload_len(self.entries@, self.block_size, self.entries@.len() as int)
            == self.payload_slab@.len()
    }

    pub fn commit_seq_for_entry(&self, entry: &PackedBlockJournalEntry) -> (result: Result<
        CommitSeq,
        StorageError,
    >)
        ensures
            result is Ok <==> self.first_commit_seq.0 + entry.commit_seq_delta <= u64::MAX,
            result matches Ok(seq) ==> seq.0 == self.first_commit_seq.0 + entry.commit_seq_delta,
            result matches Err(error) ==> error is Corrupt,
    {
        match self.first_commit_seq.raw().checked_add(entry.commit_seq_delta) {
            Some(raw) => Ok(CommitSeq::from_raw(raw)),
            None => Err(StorageError::corrupt("packed block journal commit sequence overflows")),
        }
    }

    /// Accepts exactly the records that stand for a list of writes.
    pub fn validate(&self) -> (result: Result<(), StorageError>)
        ensures
            result is Ok <==> self.valid(),
            result matches Err(error) ==> error is Corrupt,
    {
        if self.block_size == 0 {
            return Err(StorageError::corrupt("packed block journal block size must be nonzero"));
        }
        if self.entries.len() == 0 {
            return Err(StorageError::corrupt("packed block journal record has no entries"));
        }
        if data_log_checksum(self.payload_slab.as_slice()) != self.payload_checksum {
            return Err(StorageError::corrupt("packed block journal payload checksum mismatch"));
        }
        let mut expected_payload_offset: u64 = 0;
        let payload_len: u64 = self.payload_slab.len() as u64;
        let mut previous_commit_seq: Option<u64> = None;
        let mut i: usize = 0;
        while i < self.entries.len()
            invariant
                i <= self.entries@.len(),
                self.block_size > 0,
                payload_len == self.payload_slab@.len(),
                expected_payload_offset == packed_payload_len(
                    self.entries@,
                    self.block_size,
                    i as int,
                ),
                expected_payload_offset <= payload_len,
                previous_commit_seq is None <==> i == 0,
                previous_commit_seq matches Some(previous) ==> previous == self.first_commit_seq.0
                    + self.entries@[i - 1].commit_seq_delta,
                forall|k: int| 0 <= k < i ==> #[trigger] self.entry_valid(k),
            decreases self.entries@.len() - i,
        {
            let entry = &self.entries[i];
            proof {
                let next = packed_payload_len(self.entries@, self.block_size, i + 1);
                lemma_packed_payload_len_monotone(
                    self.entries@,
                    self.block_size,
                    i + 1,
                    self.entries@.len() as int,
                );
                assert(self.valid() ==> self.entry_valid(i as int) && next <= payload_len);
            }
            if i == 0 && entry.commit_seq_delta != 0 {
                return Err(
                    StorageError::corrupt(
                        "packed block journal first commit sequence disagrees with base",
                    ),
                );
            }
            let commit_seq = match self.commit_seq_for_entry(entry) {
                Ok(commit_seq) => commit_seq,
                Err(error) => return Err(error),
            };
            if let Some(previous) = previous_commit_seq {
                if commit_seq.raw() <= previous {
                    return Err(
                        StorageError::corrupt(
                            "packed block journal commit sequences are not monotonic",
                        ),
                    );
                }
            }
            previous_commit_seq = Some(commit_seq.raw());
            if entry.block_count == 0 {
                return Err(
                    StorageError::corrupt("packed block journal entry has zero block count"),
                );
            }
            let len: u64 = match entry.block_count.checked_mul(self.block_size) {
                Some(len) => len,
                None => return Err(
                    StorageError::corrupt("packed block journal entry length overflows"),
                ),
            };
            if entry.lba.checked_mul(self.block_size).is_none() {
                return Err(StorageError::corrupt("packed block journal entry offset overflows"));
            }
            if entry.payload_offset != expected_payload_offset {
                return Err(
                    StorageError::corrupt(
                        "packed block journal payload offsets are not contiguous",
                    ),
                );
            }
            expected_payload_offset = match entry.payload_offset.checked_add(len) {
                Some(end) => end,
                None => return Err(
                    StorageError::corrupt("packed block journal payload range overflows"),
                ),
            };
            if expected_payload_offset > payload_len {
                return Err(
                    StorageError::corrupt("packed block journal payload range out of bounds"),
                );
            }
            assert(self.entry_valid(i as int));
            i = i + 1;
        }
        if expected_payload_offset != payload_len {
            return Err(
                StorageError::corrupt("packed block journal payload slab has trailing bytes"),
            );
        }
        Ok(())
    }

    /// What stands before the payload.
    pub open spec fn head(self) -> (((DeviceId, WriterEpoch), (u64, CommitSeq)), (
        Vec<PackedBlockJournalEntry>,
        (u64, u64),
    )) {
        (
            ((self.device_id, self.writer_epoch), (self.block_size, self.first_commit_seq)),
            (self.entries, (self.payload_slab@.len() as u64, self.payload_checksum)),
        )
    }
}

impl DurableEncode for PackedBlockJournalWrites {
    #[verifier::opaque]
    open spec fn wire(&self) -> Seq<u8> {
        seq![1u8] + (self.head().wire() + self.payload_slab@)
    }

    open spec fn durable(&self) -> bool {
        self.head().durable() && self.valid()
    }

    fn encode(&self, out: &mut DurableEncoder) -> (result: Result<(), StorageError>) {
        reveal(pair_wire);
        reveal(<PackedBlockJournalWrites as DurableEncode>::wire);
        out.put_u8(1);
        let payload_len: u64 = self.payload_slab.len() as u64;
        (
            ((&self.device_id, &self.writer_epoch), (&self.block_size, &self.first_commit_seq)),
            (&self.entries, (payload_len, &self.payload_checksum)),
        ).encode(out)?;
        out.put_slice(self.payload_slab.as_slice());
        assert(out@ =~= old(out)@ + self.wire());
        Ok(())
    }
}

impl DurableCodec for PackedBlockJournalWrites {
    open spec fn same(&self, other: &PackedBlockJournalWrites) -> bool {
        self.head().same(&other.head()) && self.payload_slab@ == other.payload_slab@
    }

    proof fn lemma_unambiguous(
        a: &PackedBlockJournalWrites,
        b: &PackedBlockJournalWrites,
        a_tail: Seq<u8>,
        b_tail: Seq<u8>,
    ) {
        reveal(<PackedBlockJournalWrites as DurableEncode>::wire);
        reveal(pair_same);
        let (x, y) = (a.head(), b.head());
        lemma_drop_tag(1, x.wire() + a.payload_slab@, a_tail);
        lemma_drop_tag(1, y.wire() + b.payload_slab@, b_tail);
        assert(x.wire() + a.payload_slab@ + a_tail =~= x.wire() + (a.payload_slab@ + a_tail));
        assert(y.wire() + b.payload_slab@ + b_tail =~= y.wire() + (b.payload_slab@ + b_tail));
        <(((DeviceId, WriterEpoch), (u64, CommitSeq)), (
            Vec<PackedBlockJournalEntry>,
            (u64, u64),
        ))>::lemma_unambiguous(&x, &y, a.payload_slab@ + a_tail, b.payload_slab@ + b_tail);
        assert(x.1.1.0 == y.1.1.0);
        assert(a.payload_slab.len() == b.payload_slab.len());
        lemma_split_unique(a.payload_slab@, a_tail, b.payload_slab@, b_tail);
        assert(a.same(b));
    }

    fn decode(input: &mut DurableDecoder<'_>) -> (result: Result<
        PackedBlockJournalWrites,
        StorageError,
    >) {
        reveal(<PackedBlockJournalWrites as DurableEncode>::wire);
        let ghost whole = input.rest();
        let version: u8 = match input.u8() {
            Ok(version) => version,
            Err(error) => {
                proof {
                    assert forall|value: PackedBlockJournalWrites, tail: Seq<u8>| #[trigger]
                        (value.wire() + tail) == whole implies false by {
                        assert((value.wire() + tail).len() >= 1);
                    }
                }
                return Err(error);
            },
        };
        let ghost rest = input.rest();
        proof {
            assert forall|value: PackedBlockJournalWrites, tail: Seq<u8>| #[trigger]
                (value.wire() + tail) == whole implies version == 1 && rest == value.head().wire()
                + (value.payload_slab@ + tail) by {
                lemma_drop_tag(1, value.head().wire() + value.payload_slab@, tail);
                assert(whole.skip(1) =~= rest);
                assert(rest =~= value.head().wire() + (value.payload_slab@ + tail));
            }
        }
        if version != 1 {
            return Err(durable_codec_error("invalid packed block journal write version"));
        }
        let head = match <(((DeviceId, WriterEpoch), (u64, CommitSeq)), (
            Vec<PackedBlockJournalEntry>,
            (u64, u64),
        ))>::decode(input) {
            Ok(head) => head,
            Err(error) => {
                proof {
                    assert forall|value: PackedBlockJournalWrites, tail: Seq<u8>|
                        value.durable() && #[trigger] (value.wire() + tail) == whole implies false by {
                        lemma_starts_with_value(value.head(), value.payload_slab@ + tail);
                    }
                }
                return Err(error);
            },
        };
        let ghost payload = input.rest();
        proof {
            assert forall|value: PackedBlockJournalWrites, tail: Seq<u8>|
                value.durable() && #[trigger] (value.wire() + tail) == whole implies head.same(
                &value.head(),
            ) && payload == value.payload_slab@ + tail && head.1.1.0 == value.payload_slab@.len() by {
                reveal(pair_same);
                <(((DeviceId, WriterEpoch), (u64, CommitSeq)), (
                    Vec<PackedBlockJournalEntry>,
                    (u64, u64),
                ))>::lemma_unambiguous(
                    &head,
                    &value.head(),
                    payload,
                    value.payload_slab@ + tail,
                );
                assert(value.payload_slab.len() == value.payload_slab@.len());
            }
        }
        let (
            ((device_id, writer_epoch), (block_size, first_commit_seq)),
            (entries, (payload_len, payload_checksum)),
        ) = head;
        if payload_len > usize::MAX as u64 {
            proof {
                assert forall|value: PackedBlockJournalWrites, tail: Seq<u8>|
                    value.durable() && #[trigger] (value.wire() + tail) == whole implies false by {
                    assert(value.payload_slab.len() == value.payload_slab@.len());
                }
            }
            return Err(
                durable_codec_error("packed block journal payload length overflows usize"),
            );
        }
        let slab = match input.take(payload_len as usize) {
            Ok(slab) => slab,
            Err(error) => {
                proof {
                    assert forall|value: PackedBlockJournalWrites, tail: Seq<u8>|
                        value.durable() && #[trigger] (value.wire() + tail) == whole implies false by {
                        assert(payload.len() >= payload_len);
                    }
                }
                return Err(error);
            },
        };
        let payload_slab = vstd::slice::slice_to_vec(slab);
        let packed = PackedBlockJournalWrites {
            device_id,
            writer_epoch,
            block_size,
            first_commit_seq,
            entries,
            payload_checksum,
            payload_slab,
        };
        proof {
            assert(payload =~= packed.payload_slab@ + input.rest());
            assert(packed.head() == head);
            assert(whole =~= packed.wire() + input.rest());
        }
        match packed.validate() {
            Ok(()) => {
                proof {
                    lemma_starts_with_value(packed, input.rest());
                }
                Ok(packed)
            },
            Err(error) => {
                proof {
                    assert forall|value: PackedBlockJournalWrites, tail: Seq<u8>|
                        value.durable() && #[trigger] (value.wire() + tail) == whole implies false by {
                        lemma_split_unique(
                            packed.payload_slab@,
                            input.rest(),
                            value.payload_slab@,
                            tail,
                        );
                        lemma_packed_valid_same(&packed, &value);
                    }
                }
                Err(error)
            },
        }
    }
}

/// Records with the same contents are valid together.
proof fn lemma_packed_valid_same(a: &PackedBlockJournalWrites, b: &PackedBlockJournalWrites)
    requires
        a.head().same(&b.head()),
        a.payload_slab@ == b.payload_slab@,
    ensures
        a.valid() == b.valid(),
{
    reveal(pair_same);
    assert(a.entries.same(&b.entries));
    assert forall|i: int| 0 <= i < a.entries@.len() implies a.entries@[i] == b.entries@[i] by {
        assert(a.entries@[i].same(&b.entries@[i]));
    }
    assert(a.entries@ =~= b.entries@);
    assert forall|i: int| a.entry_valid(i) == b.entry_valid(i) by {}
}

/// One record of the block journal.
#[derive(Clone, Debug, PartialEq, Eq)]
pub enum BlockJournalRecord {
    Lease { device_id: DeviceId, writer_epoch: WriterEpoch },
    Write(BlockJournalCommit),
    PackedWrites(PackedBlockJournalWrites),
    Flush { device_id: DeviceId, writer_epoch: WriterEpoch, durable_through: CommitSeq },
}

impl BlockJournalRecord {
    /// The byte that tells the variants apart.
    pub open spec fn tag(&self) -> u8 {
        match self {
            BlockJournalRecord::Lease { .. } => 1,
            BlockJournalRecord::Write(_) => 2,
            BlockJournalRecord::PackedWrites(_) => 4,
            BlockJournalRecord::Flush { .. } => 3,
        }
    }

    /// The bytes behind the tag.
    pub open spec fn body(&self) -> Seq<u8> {
        match *self {
            BlockJournalRecord::Lease { device_id, writer_epoch } => (device_id, writer_epoch).wire(),
            BlockJournalRecord::Write(commit) => commit.wire(),
            BlockJournalRecord::PackedWrites(packed) => packed.wire(),
            BlockJournalRecord::Flush { device_id, writer_epoch, durable_through } => (device_id, (writer_epoch, durable_through)).wire(),
        }
    }
}

impl DurableEncode for BlockJournalRecord {
    #[verifier::opaque]
    open spec fn wire(&self) -> Seq<u8> {
        seq![self.tag()] + self.body()
    }

    open spec fn durable(&self) -> bool {
        match *self {
            BlockJournalRecord::Lease { device_id, writer_epoch } => (device_id, writer_epoch).durable(),
            BlockJournalRecord::Write(commit) => commit.durable(),
            BlockJournalRecord::PackedWrites(packed) => packed.durable(),
            BlockJournalRecord::Flush { device_id, writer_epoch, durable_through } => (device_id, (writer_epoch, durable_through)).durable(),
        }
    }

    fn encode(&self, out: &mut DurableEncoder) -> (result: Result<(), StorageError>) {
        reveal(pair_wire);
        reveal(<BlockJournalRecord as DurableEncode>::wire);
        match self {
            BlockJournalRecord::Lease { device_id, writer_epoch } => {
                out.put_u8(1);
                (device_id, writer_epoch).encode(out)?;
            },
            BlockJournalRecord::Write(commit) => {
                out.put_u8(2);
                commit.encode(out)?;
            },
            BlockJournalRecord::PackedWrites(packed) => {
                out.put_u8(4);
                packed.encode(out)?;
            },
            BlockJournalRecord::Flush { device_id, writer_epoch, durable_through } => {
                out.put_u8(3);
                (device_id, (writer_epoch, durable_through)).encode(out)?;
            },
        }
        assert(out@ =~= old(out)@ + self.wire());
        Ok(())
    }
}

impl DurableCodec for BlockJournalRecord {
    open spec fn same(&self, other: &BlockJournalRecord) -> bool {
        match (*self, *other) {
            (BlockJournalRecord::Lease { device_id, writer_epoch }, BlockJournalRecord::Lease { device_id: other_device_id, writer_epoch: other_writer_epoch }) => {
                (device_id, writer_epoch).same(&(other_device_id, other_writer_epoch))
            },
            (BlockJournalRecord::Write(commit), BlockJournalRecord::Write(other_commit)) => {
                commit.same(&other_commit)
            },
            (BlockJournalRecord::PackedWrites(packed), BlockJournalRecord::PackedWrites(other_packed)) => {
                packed.same(&other_packed)
            },
            (BlockJournalRecord::Flush { device_id, writer_epoch, durable_through }, BlockJournalRecord::Flush { device_id: other_device_id, writer_epoch: other_writer_epoch, durable_through: other_durable_through }) => {
                (device_id, (writer_epoch, durable_through)).same(&(other_device_id, (other_writer_epoch, other_durable_through)))
            },
            _ => false,
        }
    }

    proof fn lemma_unambiguous(a: &BlockJournalRecord, b: &BlockJournalRecord, a_tail: Seq<u8>, b_tail: Seq<u8>) {
        reveal(<BlockJournalRecord as DurableEncode>::wire);
        lemma_drop_tag(a.tag(), a.body(), a_tail);
        lemma_drop_tag(b.tag(), b.body(), b_tail);
        match (*a, *b) {
            (BlockJournalRecord::Lease { device_id, writer_epoch }, BlockJournalRecord::Lease { device_id: b_device_id, writer_epoch: b_writer_epoch }) => {
                <(DeviceId, WriterEpoch)>::lemma_unambiguous(&(device_id, writer_epoch), &(b_device_id, b_writer_epoch), a_tail, b_tail);
            },
            (BlockJournalRecord::Write(commit), BlockJournalRecord::Write(b_commit)) => {
                BlockJournalCommit::lemma_unambiguous(&commit, &b_commit, a_tail, b_tail);
            },
            (BlockJournalRecord::PackedWrites(packed), BlockJournalRecord::PackedWrites(b_packed)) => {
                PackedBlockJournalWrites::lemma_unambiguous(&packed, &b_packed, a_tail, b_tail);
            },
            (BlockJournalRecord::Flush { device_id, writer_epoch, durable_through }, BlockJournalRecord::Flush { device_id: b_device_id, writer_epoch: b_writer_epoch, durable_through: b_durable_through }) => {
                <(DeviceId, (WriterEpoch, CommitSeq))>::lemma_unambiguous(&(device_id, (writer_epoch, durable_through)), &(b_device_id, (b_writer_epoch, b_durable_through)), a_tail, b_tail);
            },
            _ => {},
        }
    }

    fn decode(input: &mut DurableDecoder<'_>) -> (result: Result<BlockJournalRecord, StorageError>) {
        reveal(<BlockJournalRecord as DurableEncode>::wire);
        let ghost whole = input.rest();
        let tag: u8 = match input.u8() {
            Ok(tag) => tag,
            Err(error) => {
                proof {
                    assert forall|value: BlockJournalRecord, tail: Seq<u8>| #[trigger]
                        (value.wire() + tail) == whole implies false by {
                        assert((value.wire() + tail).len() >= 1);
                    }
                }
                return Err(error);
            },
        };
        let ghost rest = input.rest();
        proof {
            assert forall|value: BlockJournalRecord, tail: Seq<u8>| #[trigger]
                (value.wire() + tail) == whole implies value.tag() == tag && rest == value.body()
                + tail by {
                lemma_drop_tag(value.tag(), value.body(), tail);
                assert(whole.skip(1) =~= rest);
            }
        }
        match tag {
            1 => match <(DeviceId, WriterEpoch)>::decode(input) {
                Ok((device_id, writer_epoch)) => {
                    let value = BlockJournalRecord::Lease { device_id, writer_epoch };
                    proof {
                        assert(whole =~= value.wire() + input.rest());
                        lemma_starts_with_value(value, input.rest());
                    }
                    Ok(value)
                },
                Err(error) => {
                    proof {
                        assert forall|value: BlockJournalRecord, tail: Seq<u8>|
                            value.durable() && #[trigger] (value.wire() + tail) == whole implies false by {
                            match value {
                                BlockJournalRecord::Lease { device_id, writer_epoch } => {
                                    lemma_starts_with_value((device_id, writer_epoch), tail);
                                },
                                _ => {},
                            }
                        }
                    }
                    Err(error)
                },
            },
            2 => match BlockJournalCommit::decode(input) {
                Ok(commit) => {
                    let value = BlockJournalRecord::Write(commit);
                    proof {
                        assert(whole =~= value.wire() + input.rest());
                        lemma_starts_with_value(value, input.rest());
                    }
                    Ok(value)
                },
                Err(error) => {
                    proof {
                        assert forall|value: BlockJournalRecord, tail: Seq<u8>|
                            value.durable() && #[trigger] (value.wire() + tail) == whole implies false by {
                            match value {
                                BlockJournalRecord::Write(commit) => {
                                    lemma_starts_with_value(commit, tail);
                                },
                                _ => {},
                            }
                        }
                    }
                    Err(error)
                },
            },
            4 => match PackedBlockJournalWrites::decode(input) {
                Ok(packed) => {
                    let value = BlockJournalRecord::PackedWrites(packed);
                    proof {
                        assert(whole =~= value.wire() + input.rest());
                        lemma_starts_with_value(value, input.rest());
                    }
                    Ok(value)
                },
                Err(error) => {
                    proof {
                        assert forall|value: BlockJournalRecord, tail: Seq<u8>|
                            value.durable() && #[trigger] (value.wire() + tail) == whole implies false by {
                            match value {
                                BlockJournalRecord::PackedWrites(packed) => {
                                    lemma_starts_with_value(packed, tail);
                                },
                                _ => {},
                            }
                        }
                    }
                    Err(error)
                },
            },
            3 => match <(DeviceId, (WriterEpoch, CommitSeq))>::decode(input) {
                Ok((device_id, (writer_epoch, durable_through))) => {
                    let value = BlockJournalRecord::Flush { device_id, writer_epoch, durable_through };
                    proof {
                        assert(whole =~= value.wire() + input.rest());
                        lemma_starts_with_value(value, input.rest());
                    }
                    Ok(value)
                },
                Err(error) => {
                    proof {
                        assert forall|value: BlockJournalRecord, tail: Seq<u8>|
                            value.durable() && #[trigger] (value.wire() + tail) == whole implies false by {
                            match value {
                                BlockJournalRecord::Flush { device_id, writer_epoch, durable_through } => {
                                    lemma_starts_with_value((device_id, (writer_epoch, durable_through)), tail);
                                },
                                _ => {},
                            }
                        }
                    }
                    Err(error)
                },
            },
            _ => Err(durable_codec_error("invalid block journal record kind")),
        }
    }
}

} // verus!
