//! The contents of metadata leaves: which segment or run holds which blocks or
//! bytes, and how a range of them is replaced.
use vstd::prelude::*;

use crate::read_plan::{run_backed, runs_backed, RunLogMap};
use crate::block_api::{BlockRange, ByteRange};
use crate::error::StorageError;
use crate::id::{BlockCount, BlockIndex, SegmentId, StorageNodeId};
use crate::metadata_records::{
    AppendLogRunRange, LeafEntry, RunBackedFileExtent, SegmentPayloadIntegrity,
};

verus! {

/// A block of a segment.
pub struct SegmentBlock {
    pub segment_id: SegmentId,
    pub offset: int,
}

/// A byte of a run log.
pub struct LogByte {
    pub storage_node: StorageNodeId,
    pub log_id: u64,
    pub offset: int,
}

impl LeafEntry {
    /// The block of the segment that stands for a logical block.
    pub open spec fn block_at(self, block: int) -> SegmentBlock {
        SegmentBlock {
            segment_id: self.segment_id,
            offset: self.segment_offset.0 + (block - self.logical_start.0),
        }
    }

    pub open spec fn wf(self) -> bool {
        &&& self.blocks.0 > 0
        &&& self.range().end() <= u64::MAX
        &&& self.segment_offset.0 + self.blocks.0 <= u64::MAX
    }
}

/// The segment block that the last entry at a logical block has there.
pub open spec fn leaf_at(entries: Seq<LeafEntry>, block: int) -> Option<SegmentBlock>
    decreases entries.len(),
{
    if entries.len() == 0 {
        None
    } else if entries.last().range().contains(block) {
        Some(entries.last().block_at(block))
    } else {
        leaf_at(entries.drop_last(), block)
    }
}

/// Whether the entries are sound, ascending, apart from each other and inside
/// `covered`.
pub open spec fn leaf_wf(entries: Seq<LeafEntry>, covered: BlockRange) -> bool {
    &&& forall|i: int|
        0 <= i < entries.len() ==> (#[trigger] entries[i]).wf() && covered.start.0
            <= entries[i].logical_start.0 && entries[i].range().end() <= covered.end()
    &&& forall|i: int, j: int|
        0 <= i < j < entries.len() ==> (#[trigger] entries[i]).range().end() <= (
        #[trigger] entries[j]).logical_start.0
}

proof fn lemma_leaf_push(entries: Seq<LeafEntry>, entry: LeafEntry, block: int)
    ensures
        leaf_at(entries.push(entry), block) == if entry.range().contains(block) {
            Some(entry.block_at(block))
        } else {
            leaf_at(entries, block)
        },
{
    assert(entries.push(entry).drop_last() =~= entries);
}

/// In a sound leaf the entry that contains a block decides it.
pub proof fn lemma_leaf_entry(entries: Seq<LeafEntry>, covered: BlockRange, i: int, block: int)
    requires
        leaf_wf(entries, covered),
        0 <= i < entries.len(),
        entries[i].range().contains(block),
    ensures
        leaf_at(entries, block) == Some(entries[i].block_at(block)),
    decreases entries.len(),
{
    let last = entries.len() - 1;
    if i < last {
        assert(entries[i].range().end() <= entries[last].logical_start.0);
        let shorter = entries.drop_last();
        assert(leaf_wf(shorter, covered));
        lemma_leaf_entry(shorter, covered, i, block);
    }
}

pub proof fn lemma_leaf_none(entries: Seq<LeafEntry>, block: int)
    ensures
        leaf_at(entries, block) is Some <==> exists|i: int|
            0 <= i < entries.len() && (#[trigger] entries[i]).range().contains(block),
    decreases entries.len(),
{
    if entries.len() > 0 {
        let shorter = entries.drop_last();
        lemma_leaf_none(shorter, block);
        if exists|i: int|
            0 <= i < shorter.len() && (#[trigger] shorter[i]).range().contains(block) {
            let i = choose|i: int|
                0 <= i < shorter.len() && (#[trigger] shorter[i]).range().contains(block);
            assert(entries[i].range().contains(block));
        }
        if exists|i: int|
            0 <= i < entries.len() && (#[trigger] entries[i]).range().contains(block) {
            let i = choose|i: int|
                0 <= i < entries.len() && (#[trigger] entries[i]).range().contains(block);
            if i < entries.len() - 1 {
                assert(shorter[i].range().contains(block));
            }
        }
    }
}

/// The entries with `overlap` taken out and the replacement, if any, put in.
pub fn replace_leaf_entries(
    entries: &Vec<LeafEntry>,
    covered: BlockRange,
    overlap: BlockRange,
    replacement: Option<LeafEntry>,
) -> (replaced: Vec<LeafEntry>)
    requires
        leaf_wf(entries@, covered),
        overlap.blocks.0 > 0,
        overlap.end() <= u64::MAX,
        covered.start.0 <= overlap.start.0,
        overlap.end() <= covered.end(),
        replacement matches Some(entry) ==> entry.wf() && entry.range() == overlap,
    ensures
        leaf_wf(replaced@, covered),
        forall|block: int| #[trigger]
            leaf_at(replaced@, block) == if overlap.contains(block) {
                match replacement {
                    Some(entry) => Some(entry.block_at(block)),
                    None => None,
                }
            } else {
                leaf_at(entries@, block)
            },
        forall|k: int|
            0 <= k < replaced@.len() ==> #[trigger] from_entry(
                replaced@[k],
                entries@,
                replacement,
            ),
{
    let start: u64 = overlap.start.0;
    let end: u64 = overlap.start.0 + overlap.blocks.0;
    let mut out: Vec<LeafEntry> = Vec::new();
    let mut i: usize = 0;
    assert(entries@.take(0) =~= Seq::<LeafEntry>::empty());
    while i < entries.len()
        invariant
            i <= entries@.len(),
            leaf_wf(entries@, covered),
            start == overlap.start.0,
            leaf_wf(out@, covered),
            forall|k: int|
                0 <= k < out@.len() ==> (#[trigger] out@[k]).range().end() <= start && (exists|
                    m: int,
                |
                    0 <= m < i && out@[k].range().end() <= (#[trigger] entries@[m]).range().end()),
            forall|k: int|
                0 <= k < out@.len() ==> #[trigger] from_entry(out@[k], entries@, replacement),
            forall|block: int| #[trigger]
                leaf_at(out@, block) == if block < start {
                    leaf_at(entries@.take(i as int), block)
                } else {
                    None
                },
        decreases entries@.len() - i,
    {
        let entry = entries[i];
        let ghost before = out@;
        proof {
            assert(entry == entries@[i as int]);
            assert(entry.wf());
            assert(entries@.take(i + 1).drop_last() =~= entries@.take(i as int));
        }
        let entry_end: u64 = entry.logical_start.0 + entry.blocks.0;
        if entry.logical_start.0 < start {
            let stop: u64 = if entry_end <= start {
                entry_end
            } else {
                start
            };
            let piece = LeafEntry {
                logical_start: entry.logical_start,
                blocks: BlockCount(stop - entry.logical_start.0),
                segment_id: entry.segment_id,
                segment_offset: entry.segment_offset,
            };
            proof {
                assert forall|k: int| 0 <= k < before.len() implies (
                #[trigger] before[k]).range().end() <= piece.logical_start.0 by {
                    let m = choose|m: int|
                        0 <= m < i && before[k].range().end() <= (
                        #[trigger] entries@[m]).range().end();
                    assert(entries@[m].range().end() <= entries@[i as int].logical_start.0);
                }
                assert(piece.range().end() <= entries@[i as int].range().end());
                assert(from_entry(piece, entries@, replacement)) by {
                    assert(cut_from(piece, entries@[i as int]));
                }
            }
            out.push(piece);
            proof {
                assert forall|block: int| #[trigger] leaf_at(out@, block) == if block < start {
                    leaf_at(entries@.take(i + 1), block)
                } else {
                    None
                } by {
                    lemma_leaf_push(before, piece, block);
                }
                assert forall|k: int| 0 <= k < out@.len() implies (
                #[trigger] out@[k]).range().end() <= start && (exists|m: int|
                    0 <= m < i + 1 && out@[k].range().end() <= (
                    #[trigger] entries@[m]).range().end()) by {
                    if k < before.len() {
                        let m = choose|m: int|
                            0 <= m < i && before[k].range().end() <= (
                            #[trigger] entries@[m]).range().end();
                        assert(out@[k].range().end() <= entries@[m].range().end());
                    } else {
                        assert(out@[k].range().end() <= entries@[i as int].range().end());
                    }
                }
            }
        }
        i = i + 1;
    }
    assert(entries@.take(entries@.len() as int) =~= entries@);
    let ghost left = out@;
    if let Some(entry) = replacement {
        out.push(entry);
        proof {
            assert forall|block: int| #[trigger] leaf_at(out@, block) == if block < start {
                leaf_at(entries@, block)
            } else if block < end {
                Some(entry.block_at(block))
            } else {
                None
            } by {
                lemma_leaf_push(left, entry, block);
            }
        }
    }
    let ghost middle = out@;
    let mut k: usize = 0;
    assert(entries@.take(0) =~= Seq::<LeafEntry>::empty());
    while k < entries.len()
        invariant
            k <= entries@.len(),
            leaf_wf(entries@, covered),
            start == overlap.start.0,
            end == overlap.end(),
            start < end,
            leaf_wf(out@, covered),
            forall|j: int|
                0 <= j < out@.len() ==> (#[trigger] out@[j]).range().end() <= end || (exists|
                    m: int,
                |
                    0 <= m < k && out@[j].range().end() <= (#[trigger] entries@[m]).range().end()),
            forall|j: int|
                0 <= j < out@.len() ==> #[trigger] from_entry(out@[j], entries@, replacement),
            forall|block: int| #[trigger]
                leaf_at(out@, block) == if block < start {
                    leaf_at(entries@, block)
                } else if block < end {
                    match replacement {
                        Some(entry) => Some(entry.block_at(block)),
                        None => None,
                    }
                } else {
                    leaf_at(entries@.take(k as int), block)
                },
        decreases entries@.len() - k,
    {
        let entry = entries[k];
        let ghost before = out@;
        proof {
            assert(entry == entries@[k as int]);
            assert(entry.wf());
            assert(entries@.take(k + 1).drop_last() =~= entries@.take(k as int));
        }
        let entry_end: u64 = entry.logical_start.0 + entry.blocks.0;
        if entry_end > end {
            let from: u64 = if entry.logical_start.0 >= end {
                entry.logical_start.0
            } else {
                end
            };
            let piece = LeafEntry {
                logical_start: BlockIndex(from),
                blocks: BlockCount(entry_end - from),
                segment_id: entry.segment_id,
                segment_offset: BlockIndex(
                    entry.segment_offset.0 + (from - entry.logical_start.0),
                ),
            };
            proof {
                assert forall|j: int| 0 <= j < before.len() implies (
                #[trigger] before[j]).range().end() <= piece.logical_start.0 by {
                    if before[j].range().end() > end {
                        let m = choose|m: int|
                            0 <= m < k && before[j].range().end() <= (
                            #[trigger] entries@[m]).range().end();
                        assert(entries@[m].range().end() <= entries@[k as int].logical_start.0);
                    }
                }
                assert(piece.range().end() <= entries@[k as int].range().end());
                assert(from_entry(piece, entries@, replacement)) by {
                    assert(cut_from(piece, entries@[k as int]));
                }
            }
            out.push(piece);
            proof {
                assert forall|block: int| #[trigger] leaf_at(out@, block) == if block < start {
                    leaf_at(entries@, block)
                } else if block < end {
                    match replacement {
                        Some(entry) => Some(entry.block_at(block)),
                        None => None,
                    }
                } else {
                    leaf_at(entries@.take(k + 1), block)
                } by {
                    lemma_leaf_push(before, piece, block);
                }
                assert forall|j: int| 0 <= j < out@.len() implies (
                #[trigger] out@[j]).range().end() <= end || (exists|m: int|
                    0 <= m < k + 1 && out@[j].range().end() <= (
                    #[trigger] entries@[m]).range().end()) by {
                    if j < before.len() {
                        if before[j].range().end() > end {
                            let m = choose|m: int|
                                0 <= m < k && before[j].range().end() <= (
                                #[trigger] entries@[m]).range().end();
                            assert(out@[j].range().end() <= entries@[m].range().end());
                        }
                    } else {
                        assert(out@[j].range().end() <= entries@[k as int].range().end());
                    }
                }
            }
        }
        k = k + 1;
    }
    assert(entries@.take(entries@.len() as int) =~= entries@);
    out
}

/// Whether `piece` reads the same segment blocks as a part of `entry`.
pub open spec fn cut_from(piece: LeafEntry, entry: LeafEntry) -> bool {
    &&& piece.segment_id == entry.segment_id
    &&& entry.segment_offset.0 <= piece.segment_offset.0
    &&& piece.segment_offset.0 + piece.blocks.0 <= entry.segment_offset.0 + entry.blocks.0
}

/// Whether `piece` is the replacement or a part of one of the entries.
pub open spec fn from_entry(
    piece: LeafEntry,
    entries: Seq<LeafEntry>,
    replacement: Option<LeafEntry>,
) -> bool {
    replacement == Some(piece) || exists|i: int|
        0 <= i < entries.len() && cut_from(piece, #[trigger] entries[i])
}

impl RunBackedFileExtent {
    pub open spec fn range(self) -> ByteRange {
        ByteRange { offset: self.file_offset_start, len: self.payload_len }
    }

    /// The log byte that stands for a byte of the file.
    pub open spec fn byte_at(self, byte: int) -> LogByte {
        LogByte {
            storage_node: self.run.storage_node,
            log_id: self.run.log_id,
            offset: self.run.log_payload_offset + (byte - self.file_offset_start),
        }
    }

    pub open spec fn wf(self) -> bool {
        &&& self.payload_len > 0
        &&& self.range().end() <= u64::MAX
        &&& self.run.file_offset_start == self.file_offset_start
        &&& self.run.payload_len == self.payload_len
        &&& self.run.log_payload_offset + self.payload_len <= u64::MAX
    }
}

/// The log byte that the last extent at a byte has there.
pub open spec fn extent_at(extents: Seq<RunBackedFileExtent>, byte: int) -> Option<LogByte>
    decreases extents.len(),
{
    if extents.len() == 0 {
        None
    } else if extents.last().range().contains(byte) {
        Some(extents.last().byte_at(byte))
    } else {
        extent_at(extents.drop_last(), byte)
    }
}

/// Whether the extents are sound, ascending and apart from each other, between
/// `low` and `high`.
pub open spec fn extents_wf(extents: Seq<RunBackedFileExtent>, low: int, high: int) -> bool {
    &&& forall|i: int|
        0 <= i < extents.len() ==> (#[trigger] extents[i]).wf() && low
            <= extents[i].file_offset_start && extents[i].range().end() <= high
    &&& forall|i: int, j: int|
        0 <= i < j < extents.len() ==> (#[trigger] extents[i]).range().end() <= (
        #[trigger] extents[j]).file_offset_start
}

proof fn lemma_extent_push(
    extents: Seq<RunBackedFileExtent>,
    extent: RunBackedFileExtent,
    byte: int,
)
    ensures
        extent_at(extents.push(extent), byte) == if extent.range().contains(byte) {
            Some(extent.byte_at(byte))
        } else {
            extent_at(extents, byte)
        },
{
    assert(extents.push(extent).drop_last() =~= extents);
}

/// In a sound leaf the extent that contains a byte decides it.
pub proof fn lemma_extent_entry(
    extents: Seq<RunBackedFileExtent>,
    low: int,
    high: int,
    i: int,
    byte: int,
)
    requires
        extents_wf(extents, low, high),
        0 <= i < extents.len(),
        extents[i].range().contains(byte),
    ensures
        extent_at(extents, byte) == Some(extents[i].byte_at(byte)),
    decreases extents.len(),
{
    let last = extents.len() - 1;
    if i < last {
        assert(extents[i].range().end() <= extents[last].file_offset_start);
        let shorter = extents.drop_last();
        assert(extents_wf(shorter, low, high));
        lemma_extent_entry(shorter, low, high, i, byte);
    }
}

/// A byte that an extent decides lies in one of them.
pub proof fn lemma_extent_some(extents: Seq<RunBackedFileExtent>, byte: int)
    ensures
        extent_at(extents, byte) is Some <==> exists|i: int|
            0 <= i < extents.len() && (#[trigger] extents[i]).range().contains(byte),
    decreases extents.len(),
{
    if extents.len() > 0 {
        let shorter = extents.drop_last();
        lemma_extent_some(shorter, byte);
        if exists|i: int|
            0 <= i < shorter.len() && (#[trigger] shorter[i]).range().contains(byte) {
            let i = choose|i: int|
                0 <= i < shorter.len() && (#[trigger] shorter[i]).range().contains(byte);
            assert(extents[i].range().contains(byte));
        }
        if exists|i: int|
            0 <= i < extents.len() && (#[trigger] extents[i]).range().contains(byte) {
            let i = choose|i: int|
                0 <= i < extents.len() && (#[trigger] extents[i]).range().contains(byte);
            if i < extents.len() - 1 {
                assert(shorter[i].range().contains(byte));
            }
        }
    }
}

/// The part of an extent between two bytes. A checksum is of a whole run, so
/// only a part that is all of it keeps its own.
pub fn slice_run_extent(extent: &RunBackedFileExtent, start: u64, end: u64) -> (result: Result<
    Option<RunBackedFileExtent>,
    StorageError,
>)
    requires
        extent.wf(),
    ensures
        result is Ok <==> extent.file_offset_start <= start && start <= end && end
            <= extent.range().end(),
        result matches Ok(None) ==> start == end,
        result matches Ok(Some(part)) ==> start < end && part.wf() && part.file_offset_start
            == start && part.range().end() == end && forall|byte: int| #[trigger]
            part.byte_at(byte) == extent.byte_at(byte),
        result matches Ok(Some(part)) ==> start == extent.file_offset_start && end
            == extent.range().end() ==> part == *extent,
        result matches Ok(Some(part)) ==> part == *extent || part.run.integrity
            == SegmentPayloadIntegrity::Unchecked,
        result matches Err(error) ==> error is Corrupt,
{
    let extent_end: u64 = extent.file_offset_start + extent.payload_len;
    if start < extent.file_offset_start || end < start || end > extent_end {
        return Err(StorageError::corrupt("run extent slice is outside the extent"));
    }
    if start == end {
        return Ok(None);
    }
    let skipped: u64 = start - extent.file_offset_start;
    let whole = start == extent.file_offset_start && end == extent_end;
    Ok(
        Some(
            RunBackedFileExtent {
                file_offset_start: start,
                payload_len: end - start,
                run: AppendLogRunRange {
                    run_id: extent.run.run_id,
                    storage_node: extent.run.storage_node,
                    stream_id: extent.run.stream_id,
                    writer_epoch: extent.run.writer_epoch,
                    keyspace_id: extent.run.keyspace_id,
                    file_id: extent.run.file_id,
                    file_offset_start: start,
                    payload_len: end - start,
                    log_id: extent.run.log_id,
                    log_payload_offset: extent.run.log_payload_offset + skipped,
                    integrity: if whole {
                        extent.run.integrity
                    } else {
                        SegmentPayloadIntegrity::Unchecked
                    },
                },
            },
        ),
    )
}

/// A part of an extent that is in the logs is in the logs.
pub proof fn lemma_slice_backed(
    logs: RunLogMap,
    extent: RunBackedFileExtent,
    part: RunBackedFileExtent,
)
    requires
        extent.wf(),
        part.wf(),
        run_backed(logs, extent),
        extent.file_offset_start <= part.file_offset_start,
        part.range().end() <= extent.range().end(),
        forall|byte: int| #[trigger] part.byte_at(byte) == extent.byte_at(byte),
        part == extent || part.run.integrity == SegmentPayloadIntegrity::Unchecked,
    ensures
        run_backed(logs, part),
{
    let byte = part.file_offset_start as int;
    assert(part.byte_at(byte) == extent.byte_at(byte));
}

/// The extents with `range` taken out and the replacements put in.
pub fn replace_run_backed_file_extents(
    extents: &Vec<RunBackedFileExtent>,
    range: ByteRange,
    replacements: &Vec<RunBackedFileExtent>,
    low: Ghost<int>,
    high: Ghost<int>,
) -> (replaced: Vec<RunBackedFileExtent>)
    requires
        extents_wf(extents@, low@, high@),
        range.len > 0,
        range.end() <= u64::MAX,
        low@ <= range.offset,
        range.end() <= high@,
        extents_wf(replacements@, range.offset as int, range.end()),
    ensures
        extents_wf(replaced@, low@, high@),
        forall|byte: int| #[trigger]
            extent_at(replaced@, byte) == if range.contains(byte) {
                extent_at(replacements@, byte)
            } else {
                extent_at(extents@, byte)
            },
        forall|logs: RunLogMap|
            runs_backed(logs, replacements@) && #[trigger] runs_backed(logs, extents@)
                ==> runs_backed(logs, replaced@),
{
    let start: u64 = range.offset;
    let end: u64 = range.offset + range.len;
    let mut out: Vec<RunBackedFileExtent> = Vec::new();
    let mut i: usize = 0;
    assert(extents@.take(0) =~= Seq::<RunBackedFileExtent>::empty());
    while i < extents.len()
        invariant
            i <= extents@.len(),
            extents_wf(extents@, low@, high@),
            start == range.offset,
            low@ <= start,
            start <= high@,
            extents_wf(out@, low@, high@),
            forall|logs: RunLogMap|
                runs_backed(logs, replacements@) && #[trigger] runs_backed(logs, extents@)
                    ==> runs_backed(logs, out@),
            forall|k: int|
                0 <= k < out@.len() ==> (#[trigger] out@[k]).range().end() <= start && (exists|
                    m: int,
                |
                    0 <= m < i && out@[k].range().end() <= (#[trigger] extents@[m]).range().end()),
            forall|byte: int| #[trigger]
                extent_at(out@, byte) == if byte < start {
                    extent_at(extents@.take(i as int), byte)
                } else {
                    None
                },
        decreases extents@.len() - i,
    {
        let extent = extents[i];
        let ghost before = out@;
        proof {
            assert(extent == extents@[i as int]);
            assert(extent.wf());
            assert(extents@.take(i + 1).drop_last() =~= extents@.take(i as int));
        }
        let extent_end: u64 = extent.file_offset_start + extent.payload_len;
        if extent.file_offset_start < start {
            let stop: u64 = if extent_end <= start {
                extent_end
            } else {
                start
            };
            if let Ok(Some(piece)) = slice_run_extent(&extent, extent.file_offset_start, stop) {
                proof {
                    assert forall|k: int| 0 <= k < before.len() implies (
                    #[trigger] before[k]).range().end() <= piece.file_offset_start by {
                        let m = choose|m: int|
                            0 <= m < i && before[k].range().end() <= (
                            #[trigger] extents@[m]).range().end();
                        assert(extents@[m].range().end() <= extents@[i as int].file_offset_start);
                    }
                    assert(piece.range().end() <= extents@[i as int].range().end());
                }
                out.push(piece);
                proof {
                    assert forall|logs: RunLogMap|
                        runs_backed(logs, replacements@) && #[trigger] runs_backed(
                            logs,
                            extents@,
                        ) implies runs_backed(logs, out@) by {
                        assert(run_backed(logs, extent));
                        lemma_slice_backed(logs, extent, piece);
                        assert(runs_backed(logs, before));
                        assert(out@ == before.push(piece));
                    }
                    assert forall|byte: int| #[trigger] extent_at(out@, byte) == if byte < start {
                        extent_at(extents@.take(i + 1), byte)
                    } else {
                        None
                    } by {
                        lemma_extent_push(before, piece, byte);
                        assert(piece.byte_at(byte) == extent.byte_at(byte));
                    }
                    assert forall|k: int| 0 <= k < out@.len() implies (
                    #[trigger] out@[k]).range().end() <= start && (exists|m: int|
                        0 <= m < i + 1 && out@[k].range().end() <= (
                        #[trigger] extents@[m]).range().end()) by {
                        if k < before.len() {
                            let m = choose|m: int|
                                0 <= m < i && before[k].range().end() <= (
                                #[trigger] extents@[m]).range().end();
                            assert(out@[k].range().end() <= extents@[m].range().end());
                        } else {
                            assert(out@[k].range().end() <= extents@[i as int].range().end());
                        }
                    }
                }
            } else {
                assert(false);
            }
        }
        i = i + 1;
    }
    assert(extents@.take(extents@.len() as int) =~= extents@);
    let mut n: usize = 0;
    assert(replacements@.take(0) =~= Seq::<RunBackedFileExtent>::empty());
    while n < replacements.len()
        invariant
            n <= replacements@.len(),
            extents_wf(replacements@, range.offset as int, range.end()),
            start == range.offset,
            end == range.end(),
            low@ <= start,
            end <= high@,
            extents_wf(out@, low@, high@),
            forall|logs: RunLogMap|
                runs_backed(logs, replacements@) && #[trigger] runs_backed(logs, extents@)
                    ==> runs_backed(logs, out@),
            forall|k: int|
                0 <= k < out@.len() ==> (#[trigger] out@[k]).range().end() <= start || (exists|
                    m: int,
                |
                    0 <= m < n && out@[k].range().end() <= (
                    #[trigger] replacements@[m]).range().end()),
            forall|byte: int| #[trigger]
                extent_at(out@, byte) == if byte < start {
                    extent_at(extents@, byte)
                } else {
                    extent_at(replacements@.take(n as int), byte)
                },
        decreases replacements@.len() - n,
    {
        let piece = replacements[n];
        let ghost before = out@;
        proof {
            assert(piece == replacements@[n as int]);
            assert(piece.wf());
            assert(replacements@.take(n + 1).drop_last() =~= replacements@.take(n as int));
            assert forall|k: int| 0 <= k < before.len() implies (
            #[trigger] before[k]).range().end() <= piece.file_offset_start by {
                if before[k].range().end() > start {
                    let m = choose|m: int|
                        0 <= m < n && before[k].range().end() <= (
                        #[trigger] replacements@[m]).range().end();
                    assert(replacements@[m].range().end()
                        <= replacements@[n as int].file_offset_start);
                }
            }
        }
        out.push(piece);
        proof {
            assert forall|logs: RunLogMap|
                runs_backed(logs, replacements@) && #[trigger] runs_backed(
                    logs,
                    extents@,
                ) implies runs_backed(logs, out@) by {
                assert(run_backed(logs, replacements@[n as int]));
                assert(runs_backed(logs, before));
            }
            assert forall|byte: int| #[trigger] extent_at(out@, byte) == if byte < start {
                extent_at(extents@, byte)
            } else {
                extent_at(replacements@.take(n + 1), byte)
            } by {
                lemma_extent_push(before, piece, byte);
            }
            assert forall|k: int| 0 <= k < out@.len() implies (#[trigger] out@[k]).range().end()
                <= start || (exists|m: int|
                0 <= m < n + 1 && out@[k].range().end() <= (
                #[trigger] replacements@[m]).range().end()) by {
                if k < before.len() {
                    if before[k].range().end() > start {
                        let m = choose|m: int|
                            0 <= m < n && before[k].range().end() <= (
                            #[trigger] replacements@[m]).range().end();
                        assert(out@[k].range().end() <= replacements@[m].range().end());
                    }
                } else {
                    assert(out@[k].range().end() <= replacements@[n as int].range().end());
                }
            }
        }
        n = n + 1;
    }
    assert(replacements@.take(replacements@.len() as int) =~= replacements@);
    proof {
        assert forall|k: int| 0 <= k < out@.len() implies (#[trigger] out@[k]).range().end()
            <= end by {
            if out@[k].range().end() > start {
                let m = choose|m: int|
                    0 <= m < replacements@.len() && out@[k].range().end() <= (
                    #[trigger] replacements@[m]).range().end();
                assert(replacements@[m].range().end() <= end);
            }
        }
        assert forall|byte: int| byte >= end implies #[trigger] extent_at(out@, byte) is None by {
            lemma_extent_some(replacements@, byte);
        }
    }
    let mut k: usize = 0;
    assert(extents@.take(0) =~= Seq::<RunBackedFileExtent>::empty());
    while k < extents.len()
        invariant
            k <= extents@.len(),
            extents_wf(extents@, low@, high@),
            start == range.offset,
            end == range.end(),
            start < end,
            low@ <= start,
            end <= high@,
            extents_wf(out@, low@, high@),
            forall|logs: RunLogMap|
                runs_backed(logs, replacements@) && #[trigger] runs_backed(logs, extents@)
                    ==> runs_backed(logs, out@),
            forall|j: int|
                0 <= j < out@.len() ==> (#[trigger] out@[j]).range().end() <= end || (exists|
                    m: int,
                |
                    0 <= m < k && out@[j].range().end() <= (#[trigger] extents@[m]).range().end()),
            forall|byte: int| #[trigger]
                extent_at(out@, byte) == if byte < start {
                    extent_at(extents@, byte)
                } else if byte < end {
                    extent_at(replacements@, byte)
                } else {
                    extent_at(extents@.take(k as int), byte)
                },
        decreases extents@.len() - k,
    {
        let extent = extents[k];
        let ghost before = out@;
        proof {
            assert(extent == extents@[k as int]);
            assert(extent.wf());
            assert(extents@.take(k + 1).drop_last() =~= extents@.take(k as int));
        }
        let extent_end: u64 = extent.file_offset_start + extent.payload_len;
        if extent_end > end {
            let from: u64 = if extent.file_offset_start >= end {
                extent.file_offset_start
            } else {
                end
            };
            if let Ok(Some(piece)) = slice_run_extent(&extent, from, extent_end) {
                proof {
                    assert forall|j: int| 0 <= j < before.len() implies (
                    #[trigger] before[j]).range().end() <= piece.file_offset_start by {
                        if before[j].range().end() > end {
                            let m = choose|m: int|
                                0 <= m < k && before[j].range().end() <= (
                                #[trigger] extents@[m]).range().end();
                            assert(extents@[m].range().end()
                                <= extents@[k as int].file_offset_start);
                        }
                    }
                    assert(piece.range().end() <= extents@[k as int].range().end());
                }
                out.push(piece);
                proof {
                    assert forall|logs: RunLogMap|
                        runs_backed(logs, replacements@) && #[trigger] runs_backed(
                            logs,
                            extents@,
                        ) implies runs_backed(logs, out@) by {
                        assert(run_backed(logs, extent));
                        lemma_slice_backed(logs, extent, piece);
                        assert(runs_backed(logs, before));
                        assert(out@ == before.push(piece));
                    }
                    assert forall|byte: int| #[trigger] extent_at(out@, byte) == if byte < start {
                        extent_at(extents@, byte)
                    } else if byte < end {
                        extent_at(replacements@, byte)
                    } else {
                        extent_at(extents@.take(k + 1), byte)
                    } by {
                        lemma_extent_push(before, piece, byte);
                        assert(piece.byte_at(byte) == extent.byte_at(byte));
                    }
                    assert forall|j: int| 0 <= j < out@.len() implies (
                    #[trigger] out@[j]).range().end() <= end || (exists|m: int|
                        0 <= m < k + 1 && out@[j].range().end() <= (
                        #[trigger] extents@[m]).range().end()) by {
                        if j < before.len() {
                            if before[j].range().end() > end {
                                let m = choose|m: int|
                                    0 <= m < k && before[j].range().end() <= (
                                    #[trigger] extents@[m]).range().end();
                                assert(out@[j].range().end() <= extents@[m].range().end());
                            }
                        } else {
                            assert(out@[j].range().end() <= extents@[k as int].range().end());
                        }
                    }
                }
            } else {
                assert(false);
            }
        }
        k = k + 1;
    }
    assert(extents@.take(extents@.len() as int) =~= extents@);
    out
}

} // verus!
