//! Commits as deltas, for replay after a restart.
use vstd::prelude::*;

use crate::codec::{durable_codec_error, lemma_drop_tag, lemma_starts_with_value, pair_same, pair_wire, DurableCodec, DurableDecoder, DurableEncode, DurableEncoder};
use crate::error::StorageError;
use crate::block_api::BlockRange;
use crate::id::{
    BlockIndex, CommitSeq, DeviceId, FileId, FileVersion, KeyspaceId, SegmentId, ShardId,
};

verus! {

/// What a block delta puts in place of a range.
#[derive(Clone, Copy, Debug, PartialEq, Eq, Structural)]
pub enum BlockDeltaReplacement {
    Segment { segment_id: SegmentId, segment_offset: BlockIndex },
    Sparse,
}

impl BlockDeltaReplacement {
    /// The byte that tells the variants apart.
    pub open spec fn tag(&self) -> u8 {
        match self {
            BlockDeltaReplacement::Segment { .. } => 1,
            BlockDeltaReplacement::Sparse => 2,
        }
    }

    /// The bytes behind the tag.
    pub open spec fn body(&self) -> Seq<u8> {
        match *self {
            BlockDeltaReplacement::Segment { segment_id, segment_offset } => (segment_id, segment_offset).wire(),
            BlockDeltaReplacement::Sparse => seq![],
        }
    }
}

impl DurableEncode for BlockDeltaReplacement {
    #[verifier::opaque]
    open spec fn wire(&self) -> Seq<u8> {
        seq![self.tag()] + self.body()
    }

    open spec fn durable(&self) -> bool {
        match *self {
            BlockDeltaReplacement::Segment { segment_id, segment_offset } => (segment_id, segment_offset).durable(),
            BlockDeltaReplacement::Sparse => true,
        }
    }

    fn encode(&self, out: &mut DurableEncoder) -> (result: Result<(), StorageError>) {
        reveal(pair_wire);
        reveal(<BlockDeltaReplacement as DurableEncode>::wire);
        match self {
            BlockDeltaReplacement::Segment { segment_id, segment_offset } => {
                out.put_u8(1);
                (segment_id, segment_offset).encode(out)?;
            },
            BlockDeltaReplacement::Sparse => {
                out.put_u8(2);
            },
        }
        assert(out@ =~= old(out)@ + self.wire());
        Ok(())
    }
}

impl DurableCodec for BlockDeltaReplacement {
    open spec fn same(&self, other: &BlockDeltaReplacement) -> bool {
        *self == *other
    }

    proof fn lemma_unambiguous(a: &BlockDeltaReplacement, b: &BlockDeltaReplacement, a_tail: Seq<u8>, b_tail: Seq<u8>) {
        reveal(<BlockDeltaReplacement as DurableEncode>::wire);
        reveal(pair_same);
        lemma_drop_tag(a.tag(), a.body(), a_tail);
        lemma_drop_tag(b.tag(), b.body(), b_tail);
        match (*a, *b) {
            (BlockDeltaReplacement::Segment { segment_id, segment_offset }, BlockDeltaReplacement::Segment { segment_id: b_segment_id, segment_offset: b_segment_offset }) => {
                <(SegmentId, BlockIndex)>::lemma_unambiguous(&(segment_id, segment_offset), &(b_segment_id, b_segment_offset), a_tail, b_tail);
            },
            (BlockDeltaReplacement::Sparse, BlockDeltaReplacement::Sparse) => {
                assert(a.body() + a_tail =~= a_tail);
                assert(b.body() + b_tail =~= b_tail);
            },
            _ => {},
        }
    }

    fn decode(input: &mut DurableDecoder<'_>) -> (result: Result<BlockDeltaReplacement, StorageError>) {
        reveal(<BlockDeltaReplacement as DurableEncode>::wire);
        let ghost whole = input.rest();
        let tag: u8 = match input.u8() {
            Ok(tag) => tag,
            Err(error) => {
                proof {
                    assert forall|value: BlockDeltaReplacement, tail: Seq<u8>| #[trigger]
                        (value.wire() + tail) == whole implies false by {
                        assert((value.wire() + tail).len() >= 1);
                    }
                }
                return Err(error);
            },
        };
        let ghost rest = input.rest();
        proof {
            assert forall|value: BlockDeltaReplacement, tail: Seq<u8>| #[trigger]
                (value.wire() + tail) == whole implies value.tag() == tag && rest == value.body()
                + tail by {
                lemma_drop_tag(value.tag(), value.body(), tail);
                assert(whole.skip(1) =~= rest);
            }
        }
        match tag {
            1 => match <(SegmentId, BlockIndex)>::decode(input) {
                Ok((segment_id, segment_offset)) => {
                    let value = BlockDeltaReplacement::Segment { segment_id, segment_offset };
                    proof {
                        assert(whole =~= value.wire() + input.rest());
                        lemma_starts_with_value(value, input.rest());
                    }
                    Ok(value)
                },
                Err(error) => {
                    proof {
                        assert forall|value: BlockDeltaReplacement, tail: Seq<u8>|
                            value.durable() && #[trigger] (value.wire() + tail) == whole implies false by {
                            match value {
                                BlockDeltaReplacement::Segment { segment_id, segment_offset } => {
                                    lemma_starts_with_value((segment_id, segment_offset), tail);
                                },
                                _ => {},
                            }
                        }
                    }
                    Err(error)
                },
            },
            2 => {
                let value = BlockDeltaReplacement::Sparse;
                proof {
                    assert(whole =~= value.wire() + input.rest());
                    lemma_starts_with_value(value, input.rest());
                }
                Ok(value)
            },
            _ => Err(durable_codec_error("invalid block delta replacement kind")),
        }
    }
}

/// One range that a block commit replaced.
#[derive(Clone, Copy, Debug, PartialEq, Eq, Structural)]
pub struct BlockDeltaEntry {
    pub shard_id: ShardId,
    pub range: BlockRange,
    pub replacement: BlockDeltaReplacement,
}

impl DurableEncode for BlockDeltaEntry {
    #[verifier::opaque]
    open spec fn wire(&self) -> Seq<u8> {
        self.fields().wire()
    }

    open spec fn durable(&self) -> bool {
        self.fields().durable()
    }

    fn encode(&self, out: &mut DurableEncoder) -> (result: Result<(), StorageError>) {
        reveal(pair_wire);
        reveal(<BlockDeltaEntry as DurableEncode>::wire);
        (&self.shard_id, (&self.range, &self.replacement)).encode(out)
    }
}

impl BlockDeltaEntry {
    pub open spec fn fields(self) -> (ShardId, (BlockRange, BlockDeltaReplacement)) {
        (self.shard_id, (self.range, self.replacement))
    }
}

impl DurableCodec for BlockDeltaEntry {
    open spec fn same(&self, other: &BlockDeltaEntry) -> bool {
        *self == *other
    }

    proof fn lemma_unambiguous(a: &BlockDeltaEntry, b: &BlockDeltaEntry, a_tail: Seq<u8>, b_tail: Seq<u8>) {
        reveal(<BlockDeltaEntry as DurableEncode>::wire);
        reveal(pair_same);
        <(ShardId, (BlockRange, BlockDeltaReplacement))>::lemma_unambiguous(&a.fields(), &b.fields(), a_tail, b_tail);
        assert(a.same(b));
    }

    fn decode(input: &mut DurableDecoder<'_>) -> (result: Result<BlockDeltaEntry, StorageError>) {
        reveal(<BlockDeltaEntry as DurableEncode>::wire);
        let ghost whole = input.rest();
        match <(ShardId, (BlockRange, BlockDeltaReplacement))>::decode(input) {
            Ok((shard_id, (range, replacement))) => {
                let value = BlockDeltaEntry { shard_id, range, replacement };
                proof {
                    lemma_starts_with_value(value, input.rest());
                }
                Ok(value)
            },
            Err(error) => {
                proof {
                    assert forall|value: BlockDeltaEntry, tail: Seq<u8>|
                        value.durable() && #[trigger] (value.wire() + tail) == whole implies false by {
                        lemma_starts_with_value(value.fields(), tail);
                    }
                }
                Err(error)
            },
        }
    }
}

/// A block commit as a list of replaced ranges.
#[derive(Clone, Debug, PartialEq, Eq)]
pub struct BlockDeltaCommit {
    pub device_id: DeviceId,
    pub commit_seq: CommitSeq,
    pub write_count: u64,
    pub collapsed_range_count: u64,
    pub committed_bytes: u64,
    pub entries: Vec<BlockDeltaEntry>,
}

impl BlockDeltaCommit {
    pub open spec fn fields(self) -> ((DeviceId, (CommitSeq, (u64, u64))), (u64, Vec<BlockDeltaEntry>)) {
        ((self.device_id, (self.commit_seq, (self.write_count, self.collapsed_range_count))), (self.committed_bytes, self.entries))
    }
}

impl DurableEncode for BlockDeltaCommit {
    #[verifier::opaque]
    open spec fn wire(&self) -> Seq<u8> {
        seq![2u8] + self.fields().wire()
    }

    open spec fn durable(&self) -> bool {
        self.fields().durable()
    }

    fn encode(&self, out: &mut DurableEncoder) -> (result: Result<(), StorageError>) {
        reveal(pair_wire);
        reveal(<BlockDeltaCommit as DurableEncode>::wire);
        out.put_u8(2);
        ((&self.device_id, (&self.commit_seq, (&self.write_count, &self.collapsed_range_count))), (&self.committed_bytes, &self.entries)).encode(out)?;
        assert(out@ =~= old(out)@ + self.wire());
        Ok(())
    }
}

impl DurableCodec for BlockDeltaCommit {
    open spec fn same(&self, other: &BlockDeltaCommit) -> bool {
        self.fields().same(&other.fields())
    }

    proof fn lemma_unambiguous(a: &BlockDeltaCommit, b: &BlockDeltaCommit, a_tail: Seq<u8>, b_tail: Seq<u8>) {
        reveal(<BlockDeltaCommit as DurableEncode>::wire);
        lemma_drop_tag(2, a.fields().wire(), a_tail);
        lemma_drop_tag(2, b.fields().wire(), b_tail);
        <((DeviceId, (CommitSeq, (u64, u64))), (u64, Vec<BlockDeltaEntry>))>::lemma_unambiguous(&a.fields(), &b.fields(), a_tail, b_tail);
        assert(a.same(b));
    }

    fn decode(input: &mut DurableDecoder<'_>) -> (result: Result<BlockDeltaCommit, StorageError>) {
        reveal(<BlockDeltaCommit as DurableEncode>::wire);
        let ghost whole = input.rest();
        let version: u8 = match input.u8() {
            Ok(version) => version,
            Err(error) => {
                proof {
                    assert forall|value: BlockDeltaCommit, tail: Seq<u8>| #[trigger]
                        (value.wire() + tail) == whole implies false by {
                        assert((value.wire() + tail).len() >= 1);
                    }
                }
                return Err(error);
            },
        };
        let ghost rest = input.rest();
        proof {
            assert forall|value: BlockDeltaCommit, tail: Seq<u8>| #[trigger]
                (value.wire() + tail) == whole implies version == 2 && rest
                == value.fields().wire() + tail by {
                lemma_drop_tag(2, value.fields().wire(), tail);
                assert(whole.skip(1) =~= rest);
            }
        }
        if version != 2 {
            return Err(durable_codec_error("invalid block delta commit version"));
        }
        match <((DeviceId, (CommitSeq, (u64, u64))), (u64, Vec<BlockDeltaEntry>))>::decode(input) {
            Ok(((device_id, (commit_seq, (write_count, collapsed_range_count))), (committed_bytes, entries))) => {
                let value = BlockDeltaCommit { device_id, commit_seq, write_count, collapsed_range_count, committed_bytes, entries };
                proof {
                    assert(whole =~= value.wire() + input.rest());
                    lemma_starts_with_value(value, input.rest());
                }
                Ok(value)
            },
            Err(error) => {
                proof {
                    assert forall|value: BlockDeltaCommit, tail: Seq<u8>|
                        value.durable() && #[trigger] (value.wire() + tail) == whole implies false by {
                        lemma_starts_with_value(value.fields(), tail);
                    }
                }
                Err(error)
            },
        }
    }
}

/// What a file delta puts in place of a range.
#[derive(Clone, Copy, Debug, PartialEq, Eq, Structural)]
pub enum NativeFileDeltaReplacement {
    Segment { segment_id: SegmentId, segment_offset: BlockIndex },
}

impl NativeFileDeltaReplacement {
    /// The byte that tells the variants apart.
    pub open spec fn tag(&self) -> u8 {
        match self {
            NativeFileDeltaReplacement::Segment { .. } => 1,
        }
    }

    /// The bytes behind the tag.
    pub open spec fn body(&self) -> Seq<u8> {
        match *self {
            NativeFileDeltaReplacement::Segment { segment_id, segment_offset } => (segment_id, segment_offset).wire(),
        }
    }
}

impl DurableEncode for NativeFileDeltaReplacement {
    #[verifier::opaque]
    open spec fn wire(&self) -> Seq<u8> {
        seq![self.tag()] + self.body()
    }

    open spec fn durable(&self) -> bool {
        match *self {
            NativeFileDeltaReplacement::Segment { segment_id, segment_offset } => (segment_id, segment_offset).durable(),
        }
    }

    fn encode(&self, out: &mut DurableEncoder) -> (result: Result<(), StorageError>) {
        reveal(pair_wire);
        reveal(<NativeFileDeltaReplacement as DurableEncode>::wire);
        match self {
            NativeFileDeltaReplacement::Segment { segment_id, segment_offset } => {
                out.put_u8(1);
                (segment_id, segment_offset).encode(out)?;
            },
        }
        assert(out@ =~= old(out)@ + self.wire());
        Ok(())
    }
}

impl DurableCodec for NativeFileDeltaReplacement {
    open spec fn same(&self, other: &NativeFileDeltaReplacement) -> bool {
        *self == *other
    }

    proof fn lemma_unambiguous(a: &NativeFileDeltaReplacement, b: &NativeFileDeltaReplacement, a_tail: Seq<u8>, b_tail: Seq<u8>) {
        reveal(<NativeFileDeltaReplacement as DurableEncode>::wire);
        reveal(pair_same);
        lemma_drop_tag(a.tag(), a.body(), a_tail);
        lemma_drop_tag(b.tag(), b.body(), b_tail);
        match (*a, *b) {
            (NativeFileDeltaReplacement::Segment { segment_id, segment_offset }, NativeFileDeltaReplacement::Segment { segment_id: b_segment_id, segment_offset: b_segment_offset }) => {
                <(SegmentId, BlockIndex)>::lemma_unambiguous(&(segment_id, segment_offset), &(b_segment_id, b_segment_offset), a_tail, b_tail);
            },
        }
    }

    fn decode(input: &mut DurableDecoder<'_>) -> (result: Result<NativeFileDeltaReplacement, StorageError>) {
        reveal(<NativeFileDeltaReplacement as DurableEncode>::wire);
        let ghost whole = input.rest();
        let tag: u8 = match input.u8() {
            Ok(tag) => tag,
            Err(error) => {
                proof {
                    assert forall|value: NativeFileDeltaReplacement, tail: Seq<u8>| #[trigger]
                        (value.wire() + tail) == whole implies false by {
                        assert((value.wire() + tail).len() >= 1);
                    }
                }
                return Err(error);
            },
        };
        let ghost rest = input.rest();
        proof {
            assert forall|value: NativeFileDeltaReplacement, tail: Seq<u8>| #[trigger]
                (value.wire() + tail) == whole implies value.tag() == tag && rest == value.body()
                + tail by {
                lemma_drop_tag(value.tag(), value.body(), tail);
                assert(whole.skip(1) =~= rest);
            }
        }
        match tag {
            1 => match <(SegmentId, BlockIndex)>::decode(input) {
                Ok((segment_id, segment_offset)) => {
                    let value = NativeFileDeltaReplacement::Segment { segment_id, segment_offset };
                    proof {
                        assert(whole =~= value.wire() + input.rest());
                        lemma_starts_with_value(value, input.rest());
                    }
                    Ok(value)
                },
                Err(error) => {
                    proof {
                        assert forall|value: NativeFileDeltaReplacement, tail: Seq<u8>|
                            value.durable() && #[trigger] (value.wire() + tail) == whole implies false by {
                            match value {
                                NativeFileDeltaReplacement::Segment { segment_id, segment_offset } => {
                                    lemma_starts_with_value((segment_id, segment_offset), tail);
                                },
                            }
                        }
                    }
                    Err(error)
                },
            },
            _ => Err(durable_codec_error("invalid native file delta replacement kind")),
        }
    }
}

/// One range that a file commit replaced.
#[derive(Clone, Copy, Debug, PartialEq, Eq, Structural)]
pub struct NativeFileDeltaEntry {
    pub range: BlockRange,
    pub replacement: NativeFileDeltaReplacement,
}

impl DurableEncode for NativeFileDeltaEntry {
    #[verifier::opaque]
    open spec fn wire(&self) -> Seq<u8> {
        self.fields().wire()
    }

    open spec fn durable(&self) -> bool {
        self.fields().durable()
    }

    fn encode(&self, out: &mut DurableEncoder) -> (result: Result<(), StorageError>) {
        reveal(pair_wire);
        reveal(<NativeFileDeltaEntry as DurableEncode>::wire);
        (&self.range, &self.replacement).encode(out)
    }
}

impl NativeFileDeltaEntry {
    pub open spec fn fields(self) -> (BlockRange, NativeFileDeltaReplacement) {
        (self.range, self.replacement)
    }
}

impl DurableCodec for NativeFileDeltaEntry {
    open spec fn same(&self, other: &NativeFileDeltaEntry) -> bool {
        *self == *other
    }

    proof fn lemma_unambiguous(a: &NativeFileDeltaEntry, b: &NativeFileDeltaEntry, a_tail: Seq<u8>, b_tail: Seq<u8>) {
        reveal(<NativeFileDeltaEntry as DurableEncode>::wire);
        reveal(pair_same);
        <(BlockRange, NativeFileDeltaReplacement)>::lemma_unambiguous(&a.fields(), &b.fields(), a_tail, b_tail);
        assert(a.same(b));
    }

    fn decode(input: &mut DurableDecoder<'_>) -> (result: Result<NativeFileDeltaEntry, StorageError>) {
        reveal(<NativeFileDeltaEntry as DurableEncode>::wire);
        let ghost whole = input.rest();
        match <(BlockRange, NativeFileDeltaReplacement)>::decode(input) {
            Ok((range, replacement)) => {
                let value = NativeFileDeltaEntry { range, replacement };
                proof {
                    lemma_starts_with_value(value, input.rest());
                }
                Ok(value)
            },
            Err(error) => {
                proof {
                    assert forall|value: NativeFileDeltaEntry, tail: Seq<u8>|
                        value.durable() && #[trigger] (value.wire() + tail) == whole implies false by {
                        lemma_starts_with_value(value.fields(), tail);
                    }
                }
                Err(error)
            },
        }
    }
}

/// A file commit as a list of replaced ranges.
#[derive(Clone, Debug, PartialEq, Eq)]
pub struct NativeFileDeltaCommit {
    pub keyspace_id: KeyspaceId,
    pub file_id: FileId,
    pub commit_seq: CommitSeq,
    pub base_file_version: FileVersion,
    pub new_file_version: FileVersion,
    pub old_size: u64,
    pub new_size: u64,
    pub write_count: u64,
    pub collapsed_range_count: u64,
    pub committed_bytes: u64,
    pub entries: Vec<NativeFileDeltaEntry>,
}

impl NativeFileDeltaCommit {
    pub open spec fn fields(self) -> (((KeyspaceId, (FileId, (CommitSeq, FileVersion))), (FileVersion, (u64, (u64, u64)))), (u64, (u64, Vec<NativeFileDeltaEntry>))) {
        (((self.keyspace_id, (self.file_id, (self.commit_seq, self.base_file_version))), (self.new_file_version, (self.old_size, (self.new_size, self.write_count)))), (self.collapsed_range_count, (self.committed_bytes, self.entries)))
    }
}

impl DurableEncode for NativeFileDeltaCommit {
    #[verifier::opaque]
    open spec fn wire(&self) -> Seq<u8> {
        seq![1u8] + self.fields().wire()
    }

    open spec fn durable(&self) -> bool {
        self.fields().durable()
    }

    fn encode(&self, out: &mut DurableEncoder) -> (result: Result<(), StorageError>) {
        reveal(pair_wire);
        reveal(<NativeFileDeltaCommit as DurableEncode>::wire);
        out.put_u8(1);
        (((&self.keyspace_id, (&self.file_id, (&self.commit_seq, &self.base_file_version))), (&self.new_file_version, (&self.old_size, (&self.new_size, &self.write_count)))), (&self.collapsed_range_count, (&self.committed_bytes, &self.entries))).encode(out)?;
        assert(out@ =~= old(out)@ + self.wire());
        Ok(())
    }
}

impl DurableCodec for NativeFileDeltaCommit {
    open spec fn same(&self, other: &NativeFileDeltaCommit) -> bool {
        self.fields().same(&other.fields())
    }

    proof fn lemma_unambiguous(a: &NativeFileDeltaCommit, b: &NativeFileDeltaCommit, a_tail: Seq<u8>, b_tail: Seq<u8>) {
        reveal(<NativeFileDeltaCommit as DurableEncode>::wire);
        lemma_drop_tag(1, a.fields().wire(), a_tail);
        lemma_drop_tag(1, b.fields().wire(), b_tail);
        <(((KeyspaceId, (FileId, (CommitSeq, FileVersion))), (FileVersion, (u64, (u64, u64)))), (u64, (u64, Vec<NativeFileDeltaEntry>)))>::lemma_unambiguous(&a.fields(), &b.fields(), a_tail, b_tail);
        assert(a.same(b));
    }

    fn decode(input: &mut DurableDecoder<'_>) -> (result: Result<NativeFileDeltaCommit, StorageError>) {
        reveal(<NativeFileDeltaCommit as DurableEncode>::wire);
        let ghost whole = input.rest();
        let version: u8 = match input.u8() {
            Ok(version) => version,
            Err(error) => {
                proof {
                    assert forall|value: NativeFileDeltaCommit, tail: Seq<u8>| #[trigger]
                        (value.wire() + tail) == whole implies false by {
                        assert((value.wire() + tail).len() >= 1);
                    }
                }
                return Err(error);
            },
        };
        let ghost rest = input.rest();
        proof {
            assert forall|value: NativeFileDeltaCommit, tail: Seq<u8>| #[trigger]
                (value.wire() + tail) == whole implies version == 1 && rest
                == value.fields().wire() + tail by {
                lemma_drop_tag(1, value.fields().wire(), tail);
                assert(whole.skip(1) =~= rest);
            }
        }
        if version != 1 {
            return Err(durable_codec_error("invalid native file delta commit version"));
        }
        match <(((KeyspaceId, (FileId, (CommitSeq, FileVersion))), (FileVersion, (u64, (u64, u64)))), (u64, (u64, Vec<NativeFileDeltaEntry>)))>::decode(input) {
            Ok((((keyspace_id, (file_id, (commit_seq, base_file_version))), (new_file_version, (old_size, (new_size, write_count)))), (collapsed_range_count, (committed_bytes, entries)))) => {
                let value = NativeFileDeltaCommit { keyspace_id, file_id, commit_seq, base_file_version, new_file_version, old_size, new_size, write_count, collapsed_range_count, committed_bytes, entries };
                proof {
                    assert(whole =~= value.wire() + input.rest());
                    lemma_starts_with_value(value, input.rest());
                }
                Ok(value)
            },
            Err(error) => {
                proof {
                    assert forall|value: NativeFileDeltaCommit, tail: Seq<u8>|
                        value.durable() && #[trigger] (value.wire() + tail) == whole implies false by {
                        lemma_starts_with_value(value.fields(), tail);
                    }
                }
                Err(error)
            },
        }
    }
}

} // verus!
