//! Where the bytes of journaled block ranges come from.
use std::sync::Arc;

use vstd::prelude::*;

use crate::block_api::{ByteRange, PayloadIntegrity};
use crate::error::StorageError;
use crate::id::{SegmentId, StorageNodeId};
use crate::metadata_records::SegmentPayloadIntegrity;

verus! {

/// A part of a shared payload, at a place of the bytes it helps to make up.
#[derive(Clone, Debug)]
pub struct BlockJournalInlineFragment {
    pub bytes: Arc<Vec<u8>>,
    /// Where the part stands among the bytes that the fragments make up.
    pub source_offset: u64,
    /// Where the part starts in `bytes`.
    pub offset: u64,
    pub len: u64,
}

/// What a journaled range reads from.
#[derive(Clone, Debug)]
pub enum BlockJournalOverlaySource {
    Bytes { payload_integrity: PayloadIntegrity, bytes: Arc<Vec<u8>>, source_offset: u64 },
    BytesFragments {
        payload_integrity: PayloadIntegrity,
        fragments: Arc<Vec<BlockJournalInlineFragment>>,
        source_offset: u64,
    },
    Segment {
        storage_node: StorageNodeId,
        segment_id: SegmentId,
        segment_offset: u64,
        integrity: SegmentPayloadIntegrity,
    },
    Sparse,
}

/// A journaled range and what it reads from.
#[derive(Clone, Debug)]
pub struct BlockJournalOverlayEntry {
    pub range: ByteRange,
    pub source: BlockJournalOverlaySource,
}

/// One journaled byte.
pub enum OverlayByte {
    /// Kept in the journal itself.
    Inline { value: u8, payload_integrity: PayloadIntegrity },
    /// Kept in a segment, `offset` bytes from its start.
    Stored { storage_node: StorageNodeId, segment_id: SegmentId, offset: int },
    /// Written as zero.
    Zero,
}

/// What bytes must have in common to be read as one.
pub enum SourceKind {
    Inline { payload_integrity: PayloadIntegrity },
    Stored {
        storage_node: StorageNodeId,
        segment_id: SegmentId,
        segment_offset: u64,
        integrity: SegmentPayloadIntegrity,
    },
    Zero,
}

impl BlockJournalInlineFragment {
    pub open spec fn in_bounds(self) -> bool {
        self.offset + self.len <= self.bytes@.len() && self.source_offset + self.len <= u64::MAX
    }

    /// The bytes of the part.
    pub open spec fn part(self) -> Seq<u8> {
        self.bytes@.subrange(self.offset as int, self.offset + self.len)
    }
}

/// The bytes that the fragments make up.
pub open spec fn fragment_bytes(fragments: Seq<BlockJournalInlineFragment>) -> Seq<u8>
    decreases fragments.len(),
{
    if fragments.len() == 0 {
        seq![]
    } else {
        fragment_bytes(fragments.drop_last()) + fragments.last().part()
    }
}

/// Whether the fragments stand one after the other, each inside its payload.
pub open spec fn fragments_wf(fragments: Seq<BlockJournalInlineFragment>) -> bool
    decreases fragments.len(),
{
    fragments.len() > 0 ==> {
        &&& fragments_wf(fragments.drop_last())
        &&& fragments.last().in_bounds()
        &&& fragments.last().source_offset == fragment_bytes(fragments.drop_last()).len()
    }
}

pub proof fn lemma_fragments_take(fragments: Seq<BlockJournalInlineFragment>, count: int)
    requires
        fragments_wf(fragments),
        0 <= count <= fragments.len(),
    ensures
        fragments_wf(fragments.take(count)),
        fragment_bytes(fragments.take(count)).len() <= fragment_bytes(fragments).len(),
        fragment_bytes(fragments).subrange(
            0,
            fragment_bytes(fragments.take(count)).len() as int,
        ) == fragment_bytes(fragments.take(count)),
    decreases fragments.len(),
{
    if count == fragments.len() {
        assert(fragments.take(count) =~= fragments);
        assert(fragment_bytes(fragments).subrange(
            0,
            fragment_bytes(fragments).len() as int,
        ) =~= fragment_bytes(fragments));
    } else {
        let shorter = fragments.drop_last();
        lemma_fragments_take(shorter, count);
        assert(shorter.take(count) =~= fragments.take(count));
        let n = fragment_bytes(fragments.take(count)).len() as int;
        assert(fragment_bytes(fragments).subrange(0, n) =~= fragment_bytes(shorter).subrange(0, n));
    }
}

/// Facts about the fragment at one place.
pub proof fn lemma_fragment_at(fragments: Seq<BlockJournalInlineFragment>, i: int)
    requires
        fragments_wf(fragments),
        0 <= i < fragments.len(),
    ensures
        fragments[i].in_bounds(),
        fragments[i].source_offset == fragment_bytes(fragments.take(i)).len(),
        fragment_bytes(fragments.take(i + 1)).len() == fragments[i].source_offset
            + fragments[i].len,
        fragments[i].source_offset + fragments[i].len <= fragment_bytes(fragments).len(),
        fragment_bytes(fragments).subrange(
            fragments[i].source_offset as int,
            fragments[i].source_offset + fragments[i].len,
        ) == fragments[i].part(),
{
    let upto = fragments.take(i + 1);
    lemma_fragments_take(fragments, i + 1);
    lemma_fragments_take(fragments, i);
    assert(upto.drop_last() =~= fragments.take(i));
    assert(upto.last() == fragments[i]);
    let start = fragments[i].source_offset as int;
    let end = start + fragments[i].len;
    assert(fragment_bytes(upto).subrange(start, end) =~= fragments[i].part());
    assert(fragment_bytes(fragments).subrange(start, end) =~= fragment_bytes(fragments).subrange(
        0,
        end,
    ).subrange(start, end));
}

/// The bytes of well-formed fragments can be counted.
pub proof fn lemma_fragments_len(fragments: Seq<BlockJournalInlineFragment>)
    requires
        fragments_wf(fragments),
    ensures
        fragment_bytes(fragments).len() <= u64::MAX,
{
    if fragments.len() > 0 {
        lemma_fragment_at(fragments, fragments.len() - 1);
        assert(fragments.take(fragments.len() as int) =~= fragments);
    }
}

impl BlockJournalOverlaySource {
    /// Whether `len` bytes can be read from the source.
    pub open spec fn holds(self, len: int) -> bool {
        match self {
            BlockJournalOverlaySource::Bytes { bytes, source_offset, .. } => source_offset + len
                <= bytes@.len(),
            BlockJournalOverlaySource::BytesFragments { fragments, source_offset, .. } => {
                fragments_wf(fragments@) && source_offset + len <= fragment_bytes(fragments@).len()
            },
            BlockJournalOverlaySource::Segment { segment_offset, .. } => segment_offset + len
                <= u64::MAX,
            BlockJournalOverlaySource::Sparse => true,
        }
    }

    pub open spec fn byte(self, i: int) -> OverlayByte {
        match self {
            BlockJournalOverlaySource::Bytes { payload_integrity, bytes, source_offset } => {
                OverlayByte::Inline { value: bytes@[source_offset + i], payload_integrity }
            },
            BlockJournalOverlaySource::BytesFragments {
                payload_integrity,
                fragments,
                source_offset,
            } => OverlayByte::Inline {
                value: fragment_bytes(fragments@)[source_offset + i],
                payload_integrity,
            },
            BlockJournalOverlaySource::Segment {
                storage_node,
                segment_id,
                segment_offset,
                ..
            } => OverlayByte::Stored { storage_node, segment_id, offset: segment_offset + i },
            BlockJournalOverlaySource::Sparse => OverlayByte::Zero,
        }
    }

    pub open spec fn kind(self) -> SourceKind {
        match self {
            BlockJournalOverlaySource::Bytes { payload_integrity, .. } => SourceKind::Inline {
                payload_integrity,
            },
            BlockJournalOverlaySource::BytesFragments { payload_integrity, .. } => {
                SourceKind::Inline { payload_integrity }
            },
            BlockJournalOverlaySource::Segment {
                storage_node,
                segment_id,
                segment_offset,
                integrity,
            } => SourceKind::Stored { storage_node, segment_id, segment_offset, integrity },
            BlockJournalOverlaySource::Sparse => SourceKind::Zero,
        }
    }

    /// The same source, `skipped` bytes further on.
    pub open spec fn is_advanced(self, later: BlockJournalOverlaySource, skipped: int) -> bool {
        &&& forall|i: int| #[trigger] later.byte(i) == self.byte(i + skipped)
        &&& match (self.kind(), later.kind()) {
            (
                SourceKind::Stored { storage_node, segment_id, segment_offset, integrity },
                SourceKind::Stored {
                    storage_node: later_node,
                    segment_id: later_segment,
                    segment_offset: later_offset,
                    integrity: later_integrity,
                },
            ) => storage_node == later_node && segment_id == later_segment && integrity
                == later_integrity && later_offset == segment_offset + skipped,
            (kind, later_kind) => kind == later_kind,
        }
    }
}

impl BlockJournalOverlayEntry {
    pub open spec fn wf(self) -> bool {
        self.range.end() <= u64::MAX && self.source.holds(self.range.len as int)
    }

    /// The journaled byte at a place of the device.
    pub open spec fn byte_at(self, place: int) -> OverlayByte {
        self.source.byte(place - self.range.offset)
    }
}

/// Where a fragment's part ends in its payload.
pub fn block_journal_inline_fragment_end(fragment: &BlockJournalInlineFragment) -> (result: Result<
    u64,
    StorageError,
>)
    ensures
        result is Ok <==> fragment.in_bounds(),
        result matches Ok(end) ==> end == fragment.offset + fragment.len,
        result matches Err(error) ==> error is Corrupt,
{
    let bytes_len: u64 = fragment.bytes.len() as u64;
    let end: u64 = match fragment.offset.checked_add(fragment.len) {
        Some(end) => end,
        None => return Err(StorageError::corrupt("block journal inline fragment range overflows")),
    };
    if fragment.source_offset.checked_add(fragment.len).is_none() {
        return Err(StorageError::corrupt("block journal inline fragment source overflows"));
    }
    if end > bytes_len {
        return Err(StorageError::corrupt("block journal inline fragment exceeds payload"));
    }
    Ok(end)
}

/// How many bytes the fragments make up.
pub fn block_journal_inline_fragments_total_len(
    fragments: &Vec<BlockJournalInlineFragment>,
) -> (result: Result<u64, StorageError>)
    ensures
        result is Ok <==> fragments_wf(fragments@),
        result matches Ok(len) ==> len == fragment_bytes(fragments@).len(),
        result matches Err(error) ==> error is Corrupt,
{
    let mut expected_offset: u64 = 0;
    let mut i: usize = 0;
    assert(fragments@.take(0) =~= Seq::<BlockJournalInlineFragment>::empty());
    while i < fragments.len()
        invariant
            i <= fragments@.len(),
            fragments_wf(fragments@.take(i as int)),
            expected_offset == fragment_bytes(fragments@.take(i as int)).len(),
        decreases fragments@.len() - i,
    {
        let fragment = &fragments[i];
        proof {
            if fragments_wf(fragments@) {
                lemma_fragment_at(fragments@, i as int);
            }
            assert(fragments@.take(i + 1).drop_last() =~= fragments@.take(i as int));
        }
        match block_journal_inline_fragment_end(fragment) {
            Ok(_) => {},
            Err(error) => return Err(error),
        }
        if fragment.source_offset != expected_offset {
            return Err(StorageError::corrupt("block journal inline fragments are not contiguous"));
        }
        expected_offset = match expected_offset.checked_add(fragment.len) {
            Some(next) => next,
            None => return Err(StorageError::corrupt("block journal inline fragments overflow")),
        };
        i = i + 1;
    }
    assert(fragments@.take(fragments@.len() as int) =~= fragments@);
    Ok(expected_offset)
}

/// The fragments that make up `len` of the bytes from `source_offset` on.
pub fn block_journal_inline_fragment_slice(
    fragments: &Vec<BlockJournalInlineFragment>,
    source_offset: u64,
    len: u64,
) -> (result: Result<Vec<BlockJournalInlineFragment>, StorageError>)
    requires
        fragments_wf(fragments@),
    ensures
        result is Ok <==> len == 0 || source_offset + len <= fragment_bytes(fragments@).len(),
        result matches Ok(slice) ==> fragments_wf(slice@) && fragment_bytes(slice@).len() == len
            && (len > 0 ==> fragment_bytes(slice@) == fragment_bytes(fragments@).subrange(
            source_offset as int,
            source_offset + len,
        )),
        result matches Err(error) ==> error is Corrupt,
{
    let ghost all = fragment_bytes(fragments@);
    let source_end: u64 = match source_offset.checked_add(len) {
        Some(end) => end,
        None => {
            proof {
                if fragments@.len() > 0 {
                    lemma_fragment_at(fragments@, fragments@.len() - 1);
                    assert(fragments@.take(fragments@.len() as int) =~= fragments@);
                }
            }
            return Err(StorageError::corrupt("block journal inline fragment slice overflows"));
        },
    };
    let mut out: Vec<BlockJournalInlineFragment> = Vec::new();
    let mut sliced_len: u64 = 0;
    let mut i: usize = 0;
    let mut done = false;
    assert(fragments@.take(0) =~= Seq::<BlockJournalInlineFragment>::empty());
    while i < fragments.len() && !done
        invariant
            i <= fragments@.len(),
            fragments_wf(fragments@),
            all == fragment_bytes(fragments@),
            source_end == source_offset + len,
            fragments_wf(out@),
            sliced_len == fragment_bytes(out@).len(),
            sliced_len <= len,
            !done ==> {
                let reached = fragment_bytes(fragments@.take(i as int)).len();
                &&& reached <= source_offset ==> sliced_len == 0
                &&& reached > source_offset ==> sliced_len == if reached <= source_end {
                    reached - source_offset
                } else {
                    len as int
                }
            },
            done ==> sliced_len == len && (len > 0 ==> source_end <= all.len()),
            source_offset + sliced_len <= all.len() || sliced_len == 0,
            sliced_len > 0 ==> fragment_bytes(out@) == all.subrange(
                source_offset as int,
                source_offset + sliced_len,
            ),
        decreases fragments@.len() - i, (if done { 0int } else { 1int }),
    {
        let fragment = &fragments[i];
        proof {
            lemma_fragment_at(fragments@, i as int);
        }
        match block_journal_inline_fragment_end(fragment) {
            Ok(_) => {},
            Err(error) => return Err(error),
        }
        let fragment_start: u64 = fragment.source_offset;
        let fragment_end: u64 = fragment.source_offset + fragment.len;
        if fragment_start < source_end && fragment_end > source_offset {
            let overlap_start: u64 = if fragment_start >= source_offset {
                fragment_start
            } else {
                source_offset
            };
            let overlap_end: u64 = if fragment_end <= source_end {
                fragment_end
            } else {
                source_end
            };
            let ghost before = out@;
            let ghost before_bytes = fragment_bytes(out@);
            let part = BlockJournalInlineFragment {
                bytes: Arc::clone(&fragment.bytes),
                source_offset: overlap_start - source_offset,
                offset: fragment.offset + (overlap_start - fragment_start),
                len: overlap_end - overlap_start,
            };
            out.push(part);
            sliced_len = sliced_len + (overlap_end - overlap_start);
            proof {
                assert(out@.drop_last() =~= before);
                assert(part.part() =~= all.subrange(overlap_start as int, overlap_end as int)) by {
                    assert(fragment.part() == all.subrange(
                        fragment_start as int,
                        fragment_end as int,
                    ));
                    assert forall|k: int| 0 <= k < part.len implies #[trigger] part.part()[k]
                        == all[overlap_start + k] by {
                        assert(fragment.part()[overlap_start - fragment_start + k] == all.subrange(
                            fragment_start as int,
                            fragment_end as int,
                        )[overlap_start - fragment_start + k]);
                    }
                }
                assert(fragment_bytes(out@) =~= all.subrange(
                    source_offset as int,
                    source_offset + sliced_len,
                ));
            }
        }
        if fragment_end >= source_end {
            done = true;
        } else {
            i = i + 1;
        }
    }
    proof {
        assert(fragments@.take(fragments@.len() as int) =~= fragments@);
    }
    if sliced_len != len {
        return Err(StorageError::corrupt("block journal inline fragment slice out of bounds"));
    }
    Ok(out)
}

/// The checksum policy of an inline source and fragments of its first `len`
/// bytes.
pub fn block_journal_inline_fragments_for_source(
    source: &BlockJournalOverlaySource,
    len: u64,
) -> (result: Result<(PayloadIntegrity, Vec<BlockJournalInlineFragment>), StorageError>)
    requires
        source matches BlockJournalOverlaySource::BytesFragments { fragments, .. } ==> fragments_wf(
            fragments@,
        ),
    ensures
        source.kind() is Inline && source.holds(len as int) ==> result is Ok,
        result matches Ok((payload_integrity, fragments)) ==> source.kind() == (
        SourceKind::Inline { payload_integrity }) && fragments_wf(fragments@) && fragment_bytes(
            fragments@,
        ).len() == len && (source.holds(len as int) ==> forall|i: int|
            0 <= i < len ==> source.byte(i) == (OverlayByte::Inline {
                value: #[trigger] fragment_bytes(fragments@)[i],
                payload_integrity,
            })),
        result matches Err(error) ==> error is Corrupt,
{
    match source {
        BlockJournalOverlaySource::Bytes { payload_integrity, bytes, source_offset } => {
            let bytes_len: u64 = bytes.len() as u64;
            let source_end: u64 = match source_offset.checked_add(len) {
                Some(end) => end,
                None => return Err(
                    StorageError::corrupt("block journal inline source range overflows"),
                ),
            };
            if source_end > bytes_len {
                return Err(StorageError::corrupt("block journal inline source slice out of bounds"));
            }
            let fragment = BlockJournalInlineFragment {
                bytes: Arc::clone(bytes),
                source_offset: 0,
                offset: *source_offset,
                len,
            };
            let mut fragments: Vec<BlockJournalInlineFragment> = Vec::new();
            fragments.push(fragment);
            proof {
                assert(fragments@.drop_last() =~= Seq::<BlockJournalInlineFragment>::empty());
                reveal_with_fuel(fragment_bytes, 2);
                reveal_with_fuel(fragments_wf, 2);
                assert(fragment_bytes(fragments@) =~= fragment.part());
            }
            Ok((*payload_integrity, fragments))
        },
        BlockJournalOverlaySource::BytesFragments { payload_integrity, fragments, source_offset } => {
            match block_journal_inline_fragment_slice(fragments, *source_offset, len) {
                Ok(slice) => Ok((*payload_integrity, slice)),
                Err(error) => Err(error),
            }
        },
        _ => Err(StorageError::corrupt("block journal source is not inline payload")),
    }
}

/// The bytes from `source_offset` on that the fragments make up.
pub fn copy_block_journal_inline_fragments(
    fragments: &Vec<BlockJournalInlineFragment>,
    source_offset: u64,
    len: u64,
) -> (result: Result<Vec<u8>, StorageError>)
    requires
        fragments_wf(fragments@),
    ensures
        result is Ok <==> len == 0 || source_offset + len <= fragment_bytes(fragments@).len(),
        result matches Ok(output) ==> output@.len() == len && (len > 0 ==> output@
            == fragment_bytes(fragments@).subrange(source_offset as int, source_offset + len)),
        result matches Err(error) ==> error is Corrupt,
{
    let parts = match block_journal_inline_fragment_slice(fragments, source_offset, len) {
        Ok(parts) => parts,
        Err(error) => return Err(error),
    };
    let mut output: Vec<u8> = Vec::new();
    let mut i: usize = 0;
    assert(parts@.take(0) =~= Seq::<BlockJournalInlineFragment>::empty());
    while i < parts.len()
        invariant
            i <= parts@.len(),
            fragments_wf(parts@),
            output@ == fragment_bytes(parts@.take(i as int)),
        decreases parts@.len() - i,
    {
        let part = &parts[i];
        proof {
            lemma_fragment_at(parts@, i as int);
            assert(parts@.take(i + 1).drop_last() =~= parts@.take(i as int));
        }
        let bytes_len: usize = part.bytes.len();
        output.extend_from_slice(
            vstd::slice::slice_subrange(
                part.bytes.as_slice(),
                part.offset as usize,
                (part.offset + part.len) as usize,
            ),
        );
        assert(output@ =~= fragment_bytes(parts@.take(i + 1)));
        i = i + 1;
    }
    assert(parts@.take(parts@.len() as int) =~= parts@);
    Ok(output)
}

/// Whether `slice` lies inside `source_range` and the source reaches that far.
pub open spec fn can_slice(
    source: BlockJournalOverlaySource,
    source_range: ByteRange,
    slice: ByteRange,
) -> bool {
    let skipped = slice.offset - source_range.offset;
    &&& source_range.end() <= u64::MAX
    &&& source_range.offset <= slice.offset
    &&& slice.end() <= source_range.end()
    &&& match source {
        BlockJournalOverlaySource::Segment { segment_offset, .. } => segment_offset + skipped
            <= u64::MAX,
        _ => source.holds(skipped + slice.len),
    }
}

/// The source of a part of a range.
pub fn block_journal_overlay_source_slice(
    source: &BlockJournalOverlaySource,
    source_range: ByteRange,
    slice: ByteRange,
) -> (result: Result<BlockJournalOverlaySource, StorageError>)
    ensures
        result is Ok <==> can_slice(*source, source_range, slice),
        result matches Ok(part) ==> source.is_advanced(part, slice.offset - source_range.offset),
        result matches Ok(part) ==> source.holds(source_range.len as int) ==> part.holds(
            slice.len as int,
        ),
        result matches Err(error) ==> error is Corrupt || error is InvalidArgument,
{
    let source_end: u64 = match source_range.end_exclusive() {
        Ok(end) => end,
        Err(error) => return Err(error),
    };
    let slice_end: u64 = match slice.end_exclusive() {
        Ok(end) => end,
        Err(error) => return Err(error),
    };
    if slice.offset < source_range.offset || slice_end > source_end {
        return Err(StorageError::corrupt("block journal LBA map slice is outside source range"));
    }
    let skipped: u64 = slice.offset - source_range.offset;
    match source {
        BlockJournalOverlaySource::Sparse => Ok(BlockJournalOverlaySource::Sparse),
        BlockJournalOverlaySource::Bytes { payload_integrity, bytes, source_offset } => {
            let bytes_len: u64 = bytes.len() as u64;
            let offset: u64 = match source_offset.checked_add(skipped) {
                Some(offset) => offset,
                None => return Err(
                    StorageError::corrupt("block journal LBA map source offset overflows"),
                ),
            };
            let end: u64 = match offset.checked_add(slice.len) {
                Some(end) => end,
                None => return Err(
                    StorageError::corrupt("block journal LBA map source end overflows"),
                ),
            };
            if end > bytes_len {
                return Err(StorageError::corrupt("block journal LBA map source slice out of bounds"));
            }
            Ok(
                BlockJournalOverlaySource::Bytes {
                    payload_integrity: *payload_integrity,
                    bytes: Arc::clone(bytes),
                    source_offset: offset,
                },
            )
        },
        BlockJournalOverlaySource::BytesFragments { payload_integrity, fragments, source_offset } => {
            let total_len: u64 = match block_journal_inline_fragments_total_len(fragments) {
                Ok(len) => len,
                Err(error) => return Err(error),
            };
            let offset: u64 = match source_offset.checked_add(skipped) {
                Some(offset) => offset,
                None => return Err(
                    StorageError::corrupt("block journal LBA map source offset overflows"),
                ),
            };
            let end: u64 = match offset.checked_add(slice.len) {
                Some(end) => end,
                None => return Err(
                    StorageError::corrupt("block journal LBA map source end overflows"),
                ),
            };
            if end > total_len {
                return Err(StorageError::corrupt("block journal LBA map source slice out of bounds"));
            }
            Ok(
                BlockJournalOverlaySource::BytesFragments {
                    payload_integrity: *payload_integrity,
                    fragments: Arc::clone(fragments),
                    source_offset: offset,
                },
            )
        },
        BlockJournalOverlaySource::Segment {
            storage_node,
            segment_id,
            segment_offset,
            integrity,
        } => {
            let offset: u64 = match segment_offset.checked_add(skipped) {
                Some(offset) => offset,
                None => return Err(
                    StorageError::corrupt("block journal segment slice offset overflows"),
                ),
            };
            Ok(
                BlockJournalOverlaySource::Segment {
                    storage_node: *storage_node,
                    segment_id: *segment_id,
                    segment_offset: offset,
                    integrity: *integrity,
                },
            )
        },
    }
}

/// A part of a journaled range.
pub fn block_journal_overlay_slice(entry: &BlockJournalOverlayEntry, range: ByteRange) -> (result:
    Result<BlockJournalOverlayEntry, StorageError>)
    ensures
        result is Ok <==> can_slice(entry.source, entry.range, range),
        result matches Ok(part) ==> part.range == range && forall|place: int| #[trigger]
            part.byte_at(place) == entry.byte_at(place),
        result matches Ok(part) ==> entry.wf() ==> part.wf(),
        result matches Err(error) ==> error is Corrupt || error is InvalidArgument,
{
    match block_journal_overlay_source_slice(&entry.source, entry.range, range) {
        Ok(source) => {
            let part = BlockJournalOverlayEntry { range, source };
            assert forall|place: int| #[trigger] part.byte_at(place) == entry.byte_at(place) by {
                let i = place - range.offset;
                assert(source.byte(i) == entry.source.byte(i + (range.offset
                    - entry.range.offset)));
            }
            Ok(part)
        },
        Err(error) => Err(error),
    }
}

/// Whether the second range continues the first from the same kind of source.
pub open spec fn continues(
    left: ByteRange,
    left_kind: SourceKind,
    right: ByteRange,
    right_kind: SourceKind,
) -> bool {
    left.end() == right.offset && match (left_kind, right_kind) {
        (SourceKind::Zero, SourceKind::Zero) => true,
        (
            SourceKind::Inline { payload_integrity },
            SourceKind::Inline { payload_integrity: right_integrity },
        ) => payload_integrity == right_integrity,
        (
            SourceKind::Stored { storage_node, segment_id, segment_offset, integrity },
            SourceKind::Stored {
                storage_node: right_node,
                segment_id: right_segment,
                segment_offset: right_offset,
                integrity: right_integrity,
            },
        ) => storage_node == right_node && segment_id == right_segment && integrity
            == right_integrity && segment_offset + left.len == right_offset,
        _ => false,
    }
}

/// Whether `merged` reads as `left` and `right` one after the other.
pub open spec fn is_merged(
    merged: BlockJournalOverlayEntry,
    left: BlockJournalOverlayEntry,
    right: BlockJournalOverlayEntry,
) -> bool {
    &&& merged.wf()
    &&& merged.range.offset == left.range.offset
    &&& merged.range.end() == right.range.end()
    &&& merged.source.kind() == left.source.kind()
    &&& forall|place: int|
        merged.range.contains(place) ==> #[trigger] merged.byte_at(place) == (if place
            < left.range.end() {
            left.byte_at(place)
        } else {
            right.byte_at(place)
        })
}

/// Moves the fragments behind `base` bytes that stand before them.
fn shift_fragments(
    first: &Vec<BlockJournalInlineFragment>,
    second: &Vec<BlockJournalInlineFragment>,
    base: u64,
) -> (joined: Vec<BlockJournalInlineFragment>)
    requires
        fragments_wf(first@),
        fragments_wf(second@),
        base == fragment_bytes(first@).len(),
        base + fragment_bytes(second@).len() <= u64::MAX,
    ensures
        fragments_wf(joined@),
        fragment_bytes(joined@) == fragment_bytes(first@) + fragment_bytes(second@),
{
    let mut joined: Vec<BlockJournalInlineFragment> = Vec::new();
    let mut i: usize = 0;
    assert(first@.take(0) =~= Seq::<BlockJournalInlineFragment>::empty());
    while i < first.len()
        invariant
            i <= first@.len(),
            fragments_wf(first@),
            fragments_wf(joined@),
            fragment_bytes(joined@) == fragment_bytes(first@.take(i as int)),
        decreases first@.len() - i,
    {
        let fragment = &first[i];
        let ghost before = joined@;
        proof {
            lemma_fragment_at(first@, i as int);
            assert(first@.take(i + 1).drop_last() =~= first@.take(i as int));
        }
        joined.push(
            BlockJournalInlineFragment {
                bytes: Arc::clone(&fragment.bytes),
                source_offset: fragment.source_offset,
                offset: fragment.offset,
                len: fragment.len,
            },
        );
        assert(joined@.drop_last() =~= before);
        i = i + 1;
    }
    assert(first@.take(first@.len() as int) =~= first@);
    let mut k: usize = 0;
    assert(second@.take(0) =~= Seq::<BlockJournalInlineFragment>::empty());
    assert(fragment_bytes(joined@) =~= fragment_bytes(first@) + fragment_bytes(second@.take(0)));
    while k < second.len()
        invariant
            k <= second@.len(),
            fragments_wf(second@),
            fragments_wf(joined@),
            base == fragment_bytes(first@).len(),
            base + fragment_bytes(second@).len() <= u64::MAX,
            fragment_bytes(joined@) == fragment_bytes(first@) + fragment_bytes(
                second@.take(k as int),
            ),
        decreases second@.len() - k,
    {
        let fragment = &second[k];
        let ghost before = joined@;
        proof {
            lemma_fragment_at(second@, k as int);
            assert(second@.take(k + 1).drop_last() =~= second@.take(k as int));
        }
        joined.push(
            BlockJournalInlineFragment {
                bytes: Arc::clone(&fragment.bytes),
                source_offset: fragment.source_offset + base,
                offset: fragment.offset,
                len: fragment.len,
            },
        );
        proof {
            assert(joined@.drop_last() =~= before);
            assert(fragment_bytes(joined@) =~= fragment_bytes(first@) + fragment_bytes(
                second@.take(k + 1),
            ));
        }
        k = k + 1;
    }
    assert(second@.take(second@.len() as int) =~= second@);
    joined
}

/// Extends `left` by `right` where the two can be kept as one journaled range.
pub fn try_extend_block_journal_commit_entry(
    left: &mut BlockJournalOverlayEntry,
    right: &BlockJournalOverlayEntry,
) -> (result: Result<bool, StorageError>)
    requires
        old(left).wf(),
        right.wf(),
    ensures
        result == Ok::<bool, StorageError>(
            continues(
                old(left).range,
                old(left).source.kind(),
                right.range,
                right.source.kind(),
            ),
        ),
        result matches Ok(true) ==> is_merged(*final(left), *old(left), *right),
        result matches Ok(false) ==> *final(left) == *old(left),
{
    let left_end: u64 = match left.range.end_exclusive() {
        Ok(end) => end,
        Err(error) => return Err(error),
    };
    if left_end != right.range.offset {
        return Ok(false);
    }
    let merged_len: u64 = match left.range.len.checked_add(right.range.len) {
        Some(len) => len,
        None => return Err(
            StorageError::corrupt("block journal LBA map commit range overflows"),
        ),
    };
    match (&left.source, &right.source) {
        (BlockJournalOverlaySource::Sparse, BlockJournalOverlaySource::Sparse) => {
            left.range.len = merged_len;
            Ok(true)
        },
        (
            BlockJournalOverlaySource::Segment {
                storage_node: left_storage_node,
                segment_id: left_segment_id,
                segment_offset: left_segment_offset,
                integrity: left_integrity,
            },
            BlockJournalOverlaySource::Segment {
                storage_node: right_storage_node,
                segment_id: right_segment_id,
                segment_offset: right_segment_offset,
                integrity: right_integrity,
            },
        ) => {
            if *left_storage_node == *right_storage_node && *left_segment_id == *right_segment_id
                && *left_integrity == *right_integrity && *left_segment_offset + left.range.len
                == *right_segment_offset {
                left.range.len = merged_len;
                Ok(true)
            } else {
                Ok(false)
            }
        },
        _ => {
            let (left_integrity, left_fragments) = match block_journal_inline_fragments_for_source(
                &left.source,
                left.range.len,
            ) {
                Ok(found) => found,
                Err(_) => return Ok(false),
            };
            let (right_integrity, right_fragments) =
                match block_journal_inline_fragments_for_source(&right.source, right.range.len) {
                Ok(found) => found,
                Err(_) => return Ok(false),
            };
            if left_integrity != right_integrity {
                return Ok(false);
            }
            let fragments = shift_fragments(&left_fragments, &right_fragments, left.range.len);
            let ghost before = *left;
            left.range.len = merged_len;
            left.source = BlockJournalOverlaySource::BytesFragments {
                payload_integrity: left_integrity,
                fragments: Arc::new(fragments),
                source_offset: 0,
            };
            proof {
                let all = fragment_bytes(fragments@);
                assert forall|place: int| left.range.contains(place) implies #[trigger] left.byte_at(
                    place,
                ) == (if place < before.range.end() {
                    before.byte_at(place)
                } else {
                    right.byte_at(place)
                }) by {
                    let i = place - before.range.offset;
                    if i < before.range.len {
                        assert(all[i] == fragment_bytes(left_fragments@)[i]);
                        assert(before.source.byte(i) == (OverlayByte::Inline {
                            value: fragment_bytes(left_fragments@)[i],
                            payload_integrity: left_integrity,
                        }));
                    } else {
                        let k = i - before.range.len;
                        assert(all[i] == fragment_bytes(right_fragments@)[k]);
                        assert(right.source.byte(k) == (OverlayByte::Inline {
                            value: fragment_bytes(right_fragments@)[k],
                            payload_integrity: right_integrity,
                        }));
                    }
                }
            }
            Ok(true)
        },
    }
}

/// Whether two handles share one allocation, by `Arc::ptr_eq`. Handles that do
/// hold the same value; of handles that do not nothing is said, for equal
/// values may lie in different places.
#[verifier::external_body]
pub(crate) fn shares_allocation<T>(a: &Arc<T>, b: &Arc<T>) -> (shared: bool)
    ensures
        shared ==> *a == *b,
{
    Arc::ptr_eq(a, b)
}

/// Extends `left` by `right` where one read can serve both. Inline ranges are
/// joined only where they read on in one shared payload.
pub fn try_extend_block_journal_lba_read_entry(
    left: &mut BlockJournalOverlayEntry,
    right: &BlockJournalOverlayEntry,
) -> (result: Result<bool, StorageError>)
    requires
        old(left).wf(),
        right.wf(),
    ensures
        result is Ok,
        result matches Ok(extended) ==> (extended ==> continues(
            old(left).range,
            old(left).source.kind(),
            right.range,
            right.source.kind(),
        )) && (right.source.kind() !is Inline ==> extended == continues(
            old(left).range,
            old(left).source.kind(),
            right.range,
            right.source.kind(),
        )),
        result matches Ok(true) ==> is_merged(*final(left), *old(left), *right),
        result matches Ok(false) ==> *final(left) == *old(left),
{
    let left_end: u64 = match left.range.end_exclusive() {
        Ok(end) => end,
        Err(error) => return Err(error),
    };
    if left_end != right.range.offset {
        return Ok(false);
    }
    let merged_len: u64 = match left.range.len.checked_add(right.range.len) {
        Some(len) => len,
        None => return Err(StorageError::corrupt("block journal LBA map read range overflows")),
    };
    let extends = match (&left.source, &right.source) {
        (BlockJournalOverlaySource::Sparse, BlockJournalOverlaySource::Sparse) => true,
        (
            BlockJournalOverlaySource::Bytes {
                payload_integrity: left_integrity,
                bytes: left_bytes,
                source_offset: left_source_offset,
            },
            BlockJournalOverlaySource::Bytes {
                payload_integrity: right_integrity,
                bytes: right_bytes,
                source_offset: right_source_offset,
            },
        ) => {
            let left_len: usize = left_bytes.len();
            *left_integrity == *right_integrity && shares_allocation(left_bytes, right_bytes)
                && *left_source_offset + left.range.len == *right_source_offset
        },
        (
            BlockJournalOverlaySource::BytesFragments {
                payload_integrity: left_integrity,
                fragments: left_fragments,
                source_offset: left_source_offset,
            },
            BlockJournalOverlaySource::BytesFragments {
                payload_integrity: right_integrity,
                fragments: right_fragments,
                source_offset: right_source_offset,
            },
        ) => *left_integrity == *right_integrity && shares_allocation(
            left_fragments,
            right_fragments,
        ) && match left_source_offset.checked_add(left.range.len) {
            Some(end) => end == *right_source_offset,
            None => false,
        },
        (
            BlockJournalOverlaySource::Segment {
                storage_node: left_storage_node,
                segment_id: left_segment_id,
                segment_offset: left_segment_offset,
                integrity: left_integrity,
            },
            BlockJournalOverlaySource::Segment {
                storage_node: right_storage_node,
                segment_id: right_segment_id,
                segment_offset: right_segment_offset,
                integrity: right_integrity,
            },
        ) => *left_storage_node == *right_storage_node && *left_segment_id == *right_segment_id
            && *left_integrity == *right_integrity && *left_segment_offset + left.range.len
            == *right_segment_offset,
        _ => false,
    };
    if extends {
        left.range.len = merged_len;
        Ok(true)
    } else {
        Ok(false)
    }
}

/// A journaled range with its bytes spelled out.
pub struct JournalRun {
    pub range: ByteRange,
    pub kind: SourceKind,
    pub bytes: Seq<OverlayByte>,
}

impl BlockJournalOverlayEntry {
    pub open spec fn run(self) -> JournalRun {
        JournalRun {
            range: self.range,
            kind: self.source.kind(),
            bytes: Seq::new(self.range.len as nat, |i: int| self.source.byte(i)),
        }
    }
}

/// Two runs as one.
pub open spec fn merge_runs(left: JournalRun, right: JournalRun) -> JournalRun {
    JournalRun {
        range: ByteRange {
            offset: left.range.offset,
            len: (left.range.len + right.range.len) as u64,
        },
        kind: left.kind,
        bytes: left.bytes + right.bytes,
    }
}

/// The runs with one more behind them, merged with the last where it goes on.
pub open spec fn coalesce(runs: Seq<JournalRun>, run: JournalRun) -> Seq<JournalRun> {
    if runs.len() > 0 && continues(runs.last().range, runs.last().kind, run.range, run.kind) {
        runs.drop_last().push(merge_runs(runs.last(), run))
    } else {
        runs.push(run)
    }
}

pub open spec fn runs_of(entries: Seq<BlockJournalOverlayEntry>) -> Seq<JournalRun> {
    entries.map_values(|entry: BlockJournalOverlayEntry| entry.run())
}

pub open spec fn entries_wf(entries: Seq<BlockJournalOverlayEntry>) -> bool {
    forall|i: int| 0 <= i < entries.len() ==> (#[trigger] entries[i]).wf()
}

/// Adds a journaled range of a commit, merged with the last where it goes on.
pub fn push_coalesced_block_journal_commit_entry(
    out: &mut Vec<BlockJournalOverlayEntry>,
    entry: BlockJournalOverlayEntry,
) -> (result: Result<(), StorageError>)
    requires
        entries_wf(old(out)@),
        entry.wf(),
    ensures
        result is Ok,
        entries_wf(final(out)@),
        runs_of(final(out)@) == coalesce(runs_of(old(out)@), entry.run()),
{
    let ghost before = out@;
    match out.pop() {
        Some(mut last) => {
            let ghost left = last;
            assert(before.last() == left);
            assert(runs_of(before).last() == left.run());
            assert(runs_of(before).drop_last() =~= runs_of(before.drop_last()));
            match try_extend_block_journal_commit_entry(&mut last, &entry) {
                Ok(extended) => {
                    if extended {
                        proof {
                            assert forall|i: int| 0 <= i < last.range.len implies last.source.byte(i)
                                == (left.run().bytes + entry.run().bytes)[i] by {
                                assert(last.byte_at(last.range.offset + i) == last.source.byte(i));
                            }
                            assert(last.run().bytes =~= left.run().bytes + entry.run().bytes);
                            assert(last.run() == merge_runs(left.run(), entry.run()));
                        }
                        out.push(last);
                        assert(runs_of(out@) =~= coalesce(runs_of(before), entry.run()));
                    } else {
                        out.push(last);
                        out.push(entry);
                        assert(runs_of(out@) =~= coalesce(runs_of(before), entry.run()));
                    }
                    Ok(())
                },
                Err(error) => Err(error),
            }
        },
        None => {
            out.push(entry);
            assert(runs_of(out@) =~= coalesce(runs_of(before), entry.run()));
            Ok(())
        },
    }
}

} // verus!
