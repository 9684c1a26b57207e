//! The newest-wins view of journaled block writes.
use std::sync::Arc;

use vstd::prelude::*;

use crate::block_api::{ByteRange, PayloadIntegrity, ReadVerification};
use crate::error::StorageError;
use crate::id::{CommitSeq, DeviceId, WriterEpoch};
use crate::idmap::IdMap;
use crate::integrity::{
    segment_payload_integrity, verify_read_integrity_policy, StorageNodeReadService,
};
use crate::journal_records::{BlockJournalCommit, BlockJournalEntry};
use crate::journal_sources::{
    block_journal_overlay_slice, coalesce, continues, copy_block_journal_inline_fragments,
    entries_wf, merge_runs, push_coalesced_block_journal_commit_entry, runs_of, shares_allocation,
    try_extend_block_journal_lba_read_entry, BlockJournalOverlayEntry, BlockJournalOverlaySource,
    JournalRun, OverlayByte, SourceKind,
};
use crate::ranges::byte_range_intersection;

verus! {

/// The run that a journal entry writes.
pub open spec fn run_of_entry(entry: BlockJournalEntry) -> JournalRun {
    match entry {
        BlockJournalEntry::Write { range, payload_integrity, bytes } => JournalRun {
            range,
            kind: SourceKind::Inline { payload_integrity },
            bytes: Seq::new(
                range.len as nat,
                |i: int| OverlayByte::Inline { value: bytes@[i], payload_integrity },
            ),
        },
        BlockJournalEntry::Segment {
            range,
            storage_node,
            segment_id,
            segment_offset,
            integrity,
        } => JournalRun {
            range,
            kind: SourceKind::Stored { storage_node, segment_id, segment_offset, integrity },
            bytes: Seq::new(
                range.len as nat,
                |i: int|
                    OverlayByte::Stored { storage_node, segment_id, offset: segment_offset + i },
            ),
        },
        BlockJournalEntry::Sparse { range } => JournalRun {
            range,
            kind: SourceKind::Zero,
            bytes: Seq::new(range.len as nat, |i: int| OverlayByte::Zero),
        },
    }
}

/// The runs of a commit, neighbours merged.
pub open spec fn coalesced_runs(entries: Seq<BlockJournalEntry>) -> Seq<JournalRun>
    decreases entries.len(),
{
    if entries.len() == 0 {
        seq![]
    } else {
        coalesce(coalesced_runs(entries.drop_last()), run_of_entry(entries.last()))
    }
}

/// The byte that the last run at a place has there.
pub open spec fn run_byte(runs: Seq<JournalRun>, place: int) -> Option<OverlayByte>
    decreases runs.len(),
{
    if runs.len() == 0 {
        None
    } else if runs.last().range.contains(place) {
        Some(runs.last().bytes[place - runs.last().range.offset])
    } else {
        run_byte(runs.drop_last(), place)
    }
}

/// The byte that a commit writes at a place: its last entry there wins.
pub open spec fn commit_byte(entries: Seq<BlockJournalEntry>, place: int) -> Option<OverlayByte>
    decreases entries.len(),
{
    if entries.len() == 0 {
        None
    } else {
        let run = run_of_entry(entries.last());
        if run.range.contains(place) {
            Some(run.bytes[place - run.range.offset])
        } else {
            commit_byte(entries.drop_last(), place)
        }
    }
}

/// Whether all ranges end within reach and have payloads of their length.
pub open spec fn entries_loadable(entries: Seq<BlockJournalEntry>) -> bool {
    forall|i: int|
        0 <= i < entries.len() ==> (#[trigger] entries[i]).covers().end() <= u64::MAX
            && entries[i].payload_fits()
}

pub open spec fn runs_sound(runs: Seq<JournalRun>) -> bool {
    forall|i: int|
        0 <= i < runs.len() ==> (#[trigger] runs[i]).bytes.len() == runs[i].range.len
            && runs[i].range.end() <= u64::MAX
}

proof fn lemma_coalesce_byte(runs: Seq<JournalRun>, run: JournalRun, place: int)
    requires
        runs_sound(runs),
        run.bytes.len() == run.range.len,
        run.range.end() <= u64::MAX,
    ensures
        runs_sound(coalesce(runs, run)),
        run_byte(coalesce(runs, run), place) == if run.range.contains(place) {
            Some(run.bytes[place - run.range.offset])
        } else {
            run_byte(runs, place)
        },
{
    let after = coalesce(runs, run);
    if runs.len() > 0 && continues(runs.last().range, runs.last().kind, run.range, run.kind) {
        assert(runs[runs.len() - 1].range.end() <= u64::MAX);
        assert(after.drop_last() =~= runs.drop_last());
        assert(after.last() == merge_runs(runs.last(), run));
        assert forall|i: int| 0 <= i < after.len() implies (#[trigger] after[i]).bytes.len()
            == after[i].range.len && after[i].range.end() <= u64::MAX by {
            if i < after.len() - 1 {
                assert(after[i] == runs[i]);
            }
        }
    } else {
        assert(after.drop_last() =~= runs);
        assert forall|i: int| 0 <= i < after.len() implies (#[trigger] after[i]).bytes.len()
            == after[i].range.len && after[i].range.end() <= u64::MAX by {
            if i < after.len() - 1 {
                assert(after[i] == runs[i]);
            }
        }
    }
}

/// Merging neighbours changes no byte of a commit.
pub proof fn lemma_coalesced_bytes(entries: Seq<BlockJournalEntry>, place: int)
    requires
        entries_loadable(entries),
    ensures
        runs_sound(coalesced_runs(entries)),
        run_byte(coalesced_runs(entries), place) == commit_byte(entries, place),
    decreases entries.len(),
{
    if entries.len() > 0 {
        let shorter = entries.drop_last();
        assert forall|i: int| 0 <= i < shorter.len() implies (#[trigger] shorter[i]).covers().end()
            <= u64::MAX && shorter[i].payload_fits() by {
            assert(entries[i].payload_fits());
        }
        lemma_coalesced_bytes(shorter, place);
        assert(entries[entries.len() - 1].payload_fits());
        lemma_coalesce_byte(coalesced_runs(shorter), run_of_entry(entries.last()), place);
    }
}

impl BlockJournalCommit {
    /// The journaled ranges of the commit, neighbours merged.
    pub fn overlay_entries(&self) -> (result: Result<Vec<BlockJournalOverlayEntry>, StorageError>)
        requires
            entries_loadable(self.entries@),
        ensures
            result matches Ok(entries) && entries_wf(entries@) && runs_of(entries@)
                == coalesced_runs(self.entries@),
    {
        let mut entries: Vec<BlockJournalOverlayEntry> = Vec::new();
        let mut i: usize = 0;
        assert(self.entries@.take(0) =~= Seq::<BlockJournalEntry>::empty());
        assert(runs_of(entries@) =~= Seq::<JournalRun>::empty());
        while i < self.entries.len()
            invariant
                i <= self.entries@.len(),
                entries_loadable(self.entries@),
                entries_wf(entries@),
                runs_of(entries@) == coalesced_runs(self.entries@.take(i as int)),
            decreases self.entries@.len() - i,
        {
            let entry = &self.entries[i];
            assert(entry.covers().end() <= u64::MAX && entry.payload_fits());
            let source = match entry {
                BlockJournalEntry::Write { payload_integrity, bytes, .. } => {
                    BlockJournalOverlaySource::Bytes {
                        payload_integrity: *payload_integrity,
                        bytes: Arc::new(vstd::slice::slice_to_vec(bytes.as_slice())),
                        source_offset: 0,
                    }
                },
                BlockJournalEntry::Segment {
                    storage_node,
                    segment_id,
                    segment_offset,
                    integrity,
                    ..
                } => BlockJournalOverlaySource::Segment {
                    storage_node: *storage_node,
                    segment_id: *segment_id,
                    segment_offset: *segment_offset,
                    integrity: *integrity,
                },
                BlockJournalEntry::Sparse { .. } => BlockJournalOverlaySource::Sparse,
            };
            let overlay_entry = BlockJournalOverlayEntry { range: entry.range(), source };
            proof {
                assert(overlay_entry.run().bytes =~= run_of_entry(*entry).bytes);
                assert(overlay_entry.run() == run_of_entry(*entry));
                assert(self.entries@.take(i + 1).drop_last() =~= self.entries@.take(i as int));
            }
            match push_coalesced_block_journal_commit_entry(&mut entries, overlay_entry) {
                Ok(()) => {},
                Err(error) => return Err(error),
            }
            i = i + 1;
        }
        assert(self.entries@.take(self.entries@.len() as int) =~= self.entries@);
        Ok(entries)
    }
}

/// The journaled byte at a place: the last range there wins.
pub open spec fn overlay_at(runs: Seq<BlockJournalOverlayEntry>, place: int) -> Option<OverlayByte>
    decreases runs.len(),
{
    if runs.len() == 0 {
        None
    } else if runs.last().range.contains(place) {
        Some(runs.last().byte_at(place))
    } else {
        overlay_at(runs.drop_last(), place)
    }
}

proof fn lemma_overlay_concat(
    a: Seq<BlockJournalOverlayEntry>,
    b: Seq<BlockJournalOverlayEntry>,
    place: int,
)
    ensures
        overlay_at(a + b, place) == match overlay_at(b, place) {
            Some(byte) => Some(byte),
            None => overlay_at(a, place),
        },
    decreases b.len(),
{
    if b.len() == 0 {
        assert(a + b =~= a);
    } else {
        assert((a + b).drop_last() =~= a + b.drop_last());
        lemma_overlay_concat(a, b.drop_last(), place);
    }
}

proof fn lemma_overlay_push(
    runs: Seq<BlockJournalOverlayEntry>,
    run: BlockJournalOverlayEntry,
    place: int,
)
    ensures
        overlay_at(runs.push(run), place) == if run.range.contains(place) {
            Some(run.byte_at(place))
        } else {
            overlay_at(runs, place)
        },
{
    assert(runs.push(run).drop_last() =~= runs);
}

proof fn lemma_overlay_absent(runs: Seq<BlockJournalOverlayEntry>, place: int)
    requires
        forall|i: int| 0 <= i < runs.len() ==> !(#[trigger] runs[i]).range.contains(place),
    ensures
        overlay_at(runs, place) is None,
    decreases runs.len(),
{
    if runs.len() > 0 {
        assert(!runs[runs.len() - 1].range.contains(place));
        assert forall|i: int| 0 <= i < runs.drop_last().len() implies !(
        #[trigger] runs.drop_last()[i]).range.contains(place) by {
            assert(!runs[i].range.contains(place));
        }
        lemma_overlay_absent(runs.drop_last(), place);
    }
}

/// Whether a range starts and ends on blocks.
pub open spec fn on_blocks(range: ByteRange, block_size: u64) -> bool {
    block_size > 0 && range.offset % block_size == 0 && range.end() % block_size as int == 0
}

/// Whether the runs are sound, ascending, apart from each other, not empty
/// and on blocks.
pub open spec fn runs_wf(runs: Seq<BlockJournalOverlayEntry>, block_size: u64) -> bool {
    &&& block_size > 0
    &&& forall|i: int|
        0 <= i < runs.len() ==> (#[trigger] runs[i]).wf() && runs[i].range.len > 0 && on_blocks(
            runs[i].range,
            block_size,
        )
    &&& forall|i: int, j: int|
        0 <= i < j < runs.len() ==> (#[trigger] runs[i]).range.end() <= (
        #[trigger] runs[j]).range.offset
}

/// The first block of a range and the one behind its last.
pub fn block_journal_lba_bounds(range: ByteRange, block_size: u64) -> (result: Result<
    (u64, u64),
    StorageError,
>)
    requires
        range.end() <= u64::MAX,
    ensures
        result is Ok <==> on_blocks(range, block_size),
        result matches Ok((start, end)) ==> start == range.offset / block_size && end == range.end()
            / block_size as int,
        result matches Err(error) ==> error is Corrupt,
{
    if block_size == 0 {
        return Err(StorageError::corrupt("block journal LBA map block size must be nonzero"));
    }
    proof {
        let (o, l, b) = (range.offset as int, range.len as int, block_size as int);
        vstd::arithmetic::div_mod::lemma_fundamental_div_mod(o, b);
        vstd::arithmetic::div_mod::lemma_fundamental_div_mod(l, b);
        vstd::arithmetic::div_mod::lemma_fundamental_div_mod(o + l, b);
        if o % b == 0 {
            vstd::arithmetic::div_mod::lemma_mod_adds(o, l, b);
            vstd::arithmetic::div_mod::lemma_add_mod_noop(o, l, b);
            vstd::arithmetic::div_mod::lemma_small_mod((l % b) as nat, b as nat);
            assert((o + l) % b == l % b);
            if l % b == 0 {
                assert(o + l == b * (o / b + l / b)) by (nonlinear_arith)
                    requires
                        o == b * (o / b),
                        l == b * (l / b),
                ;
                vstd::arithmetic::div_mod::lemma_fundamental_div_mod_converse(
                    o + l,
                    b,
                    o / b + l / b,
                    0,
                );
                assert(o / b + l / b <= o + l) by (nonlinear_arith)
                    requires
                        b >= 1,
                        o + l == b * (o / b + l / b),
                        o >= 0,
                        l >= 0,
                ;
            }
        }
    }
    if range.offset % block_size != 0 || range.len % block_size != 0 {
        return Err(StorageError::corrupt("block journal LBA map entry is not block aligned"));
    }
    let start_lba: u64 = range.offset / block_size;
    let block_count: u64 = range.len / block_size;
    match start_lba.checked_add(block_count) {
        Some(end_lba) => Ok((start_lba, end_lba)),
        None => Err(StorageError::corrupt("block journal LBA range overflows")),
    }
}

/// Puts a journaled range over the ones that are there: what it covers is read
/// from it, everything else as before.
#[verifier::rlimit(40)]
pub fn insert_block_journal_lba_run(
    runs: &mut Vec<BlockJournalOverlayEntry>,
    block_size: u64,
    entry: BlockJournalOverlayEntry,
) -> (result: Result<(), StorageError>)
    requires
        block_size > 0 ==> runs_wf(old(runs)@, block_size),
        entry.wf(),
    ensures
        result is Ok <==> on_blocks(entry.range, block_size),
        result is Ok ==> runs_wf(final(runs)@, block_size),
        result is Ok ==> forall|place: int| #[trigger]
            overlay_at(final(runs)@, place) == if entry.range.contains(place) {
                Some(entry.byte_at(place))
            } else {
                overlay_at(old(runs)@, place)
            },
        result matches Err(error) ==> error is Corrupt && final(runs)@ == old(runs)@,
{
    match block_journal_lba_bounds(entry.range, block_size) {
        Ok((start_lba, end_lba)) => {},
        Err(error) => return Err(error),
    }
    if entry.range.len == 0 {
        return Ok(());
    }
    let ghost before = runs@;
    let ghost added = entry;
    let start: u64 = entry.range.offset;
    let end: u64 = entry.range.offset + entry.range.len;
    let mut first: usize = 0;
    while first < runs.len() && runs[first].range.offset + runs[first].range.len <= start
        invariant
            first <= runs@.len(),
            runs@ == before,
            runs_wf(before, block_size),
            forall|i: int| 0 <= i < first ==> (#[trigger] before[i]).range.end() <= start,
        decreases runs@.len() - first,
    {
        first = first + 1;
    }
    let mut behind: usize = first;
    while behind < runs.len() && runs[behind].range.offset < end
        invariant
            first <= behind <= runs@.len(),
            runs@ == before,
            runs_wf(before, block_size),
            forall|i: int| first <= i < behind ==> (#[trigger] before[i]).range.offset < end,
        decreases runs@.len() - behind,
    {
        behind = behind + 1;
    }
    assert(first < before.len() ==> before[first as int].range.end() > start);
    assert(forall|i: int|
        first <= i < before.len() ==> (#[trigger] before[i]).range.end() > start) by {
        assert forall|i: int| first <= i < before.len() implies (#[trigger] before[i]).range.end()
            > start by {
            if i > first {
                assert(before[first as int].range.end() <= before[i].range.offset);
            }
        }
    }
    assert(forall|i: int|
        behind <= i < before.len() ==> (#[trigger] before[i]).range.offset >= end) by {
        assert forall|i: int| behind <= i < before.len() implies (#[trigger] before[i]).range.offset
            >= end by {
            if i > behind {
                assert(before[behind as int].range.end() <= before[i].range.offset);
            }
        }
    }
    let mut pieces: Vec<BlockJournalOverlayEntry> = Vec::new();
    if first < behind && runs[first].range.offset < start {
        let range = ByteRange {
            offset: runs[first].range.offset,
            len: start - runs[first].range.offset,
        };
        match block_journal_overlay_slice(&runs[first], range) {
            Ok(piece) => {
                pieces.push(piece);
            },
            Err(error) => {
                assert(false);
                return Err(error);
            },
        }
    }
    let ghost left = pieces@;
    pieces.push(entry);
    if first < behind && runs[behind - 1].range.offset + runs[behind - 1].range.len > end {
        let last_end: u64 = runs[behind - 1].range.offset + runs[behind - 1].range.len;
        let range = ByteRange { offset: end, len: last_end - end };
        match block_journal_overlay_slice(&runs[behind - 1], range) {
            Ok(piece) => {
                pieces.push(piece);
            },
            Err(error) => {
                assert(false);
                return Err(error);
            },
        }
    }
    let ghost middle = pieces@;
    let mut tail = runs.split_off(behind);
    runs.truncate(first);
    let ghost head = runs@;
    let ghost rest = tail@;
    runs.append(&mut pieces);
    runs.append(&mut tail);
    proof {
        assert(head =~= before.take(first as int));
        assert(rest =~= before.skip(behind as int));
        assert(runs@ =~= (head + middle) + rest);
        assert(middle.take(left.len() as int) =~= left);
        assert(pieces_cover(before, added, first as int, behind as int, left, middle));
        assert(overlaps_between(before, added, first as int, behind as int));
        lemma_inserted(before, block_size, added, first as int, behind as int, left, middle);
    }
    Ok(())
}

/// What the pieces in the middle are made of.
spec fn pieces_cover(
    before: Seq<BlockJournalOverlayEntry>,
    added: BlockJournalOverlayEntry,
    first: int,
    behind: int,
    left: Seq<BlockJournalOverlayEntry>,
    middle: Seq<BlockJournalOverlayEntry>,
) -> bool {
    let has_left = first < behind && before[first].range.offset < added.range.offset;
    let has_right = first < behind && before[behind - 1].range.end() > added.range.end();
    &&& left.len() == if has_left { 1int } else { 0int }
    &&& has_left ==> left[0].wf() && left[0].range.offset == before[first].range.offset
        && left[0].range.end() == added.range.offset && forall|place: int|
        #[trigger] left[0].byte_at(place) == before[first].byte_at(place)
    &&& middle.len() == left.len() + 1 + if has_right { 1int } else { 0int }
    &&& middle.take(left.len() as int) == left
    &&& middle[left.len() as int] == added
    &&& has_right ==> middle.last().wf() && middle.last().range.offset == added.range.end()
        && middle.last().range.end() == before[behind - 1].range.end() && forall|place: int|
        #[trigger] middle.last().byte_at(place) == before[behind - 1].byte_at(place)
}

/// Whether `first..behind` are the runs that `added` overlaps.
spec fn overlaps_between(
    before: Seq<BlockJournalOverlayEntry>,
    added: BlockJournalOverlayEntry,
    first: int,
    behind: int,
) -> bool {
    &&& 0 <= first <= behind <= before.len()
    &&& forall|i: int|
        0 <= i < first ==> (#[trigger] before[i]).range.end() <= added.range.offset
    &&& forall|i: int|
        first <= i < before.len() ==> (#[trigger] before[i]).range.end() > added.range.offset
    &&& forall|i: int|
        first <= i < behind ==> (#[trigger] before[i]).range.offset < added.range.end()
    &&& forall|i: int|
        behind <= i < before.len() ==> (#[trigger] before[i]).range.offset >= added.range.end()
}

proof fn lemma_inserted(
    before: Seq<BlockJournalOverlayEntry>,
    block_size: u64,
    added: BlockJournalOverlayEntry,
    first: int,
    behind: int,
    left: Seq<BlockJournalOverlayEntry>,
    middle: Seq<BlockJournalOverlayEntry>,
)
    requires
        runs_wf(before, block_size),
        added.wf(),
        added.range.len > 0,
        on_blocks(added.range, block_size),
        overlaps_between(before, added, first, behind),
        pieces_cover(before, added, first, behind, left, middle),
    ensures
        runs_wf((before.take(first) + middle) + before.skip(behind), block_size),
        forall|place: int| #[trigger]
            overlay_at((before.take(first) + middle) + before.skip(behind), place)
                == if added.range.contains(place) {
                Some(added.byte_at(place))
            } else {
                overlay_at(before, place)
            },
{
    let (head, rest) = (before.take(first), before.skip(behind));
    let over = before.subrange(first, behind);
    let after = (head + middle) + rest;
    assert(before =~= (head + over) + rest);
    lemma_inserted_runs_wf(before, block_size, added, first, behind, left, middle);
    assert forall|place: int| #[trigger] overlay_at(after, place) == if added.range.contains(
        place,
    ) {
        Some(added.byte_at(place))
    } else {
        overlay_at(before, place)
    } by {
        lemma_overlay_concat(head + middle, rest, place);
        lemma_overlay_concat(head, middle, place);
        lemma_overlay_concat(head + over, rest, place);
        lemma_overlay_concat(head, over, place);
        lemma_inserted_piece_bytes(before, block_size, added, first, behind, left, middle, place);
        if added.range.contains(place) {
            assert forall|i: int| 0 <= i < rest.len() implies !(#[trigger] rest[i]).range.contains(
                place,
            ) by {
                assert(before[behind + i].range.offset >= added.range.end());
            }
            lemma_overlay_absent(rest, place);
        }
    }
}

proof fn lemma_inserted_runs_wf(
    before: Seq<BlockJournalOverlayEntry>,
    block_size: u64,
    added: BlockJournalOverlayEntry,
    first: int,
    behind: int,
    left: Seq<BlockJournalOverlayEntry>,
    middle: Seq<BlockJournalOverlayEntry>,
)
    requires
        runs_wf(before, block_size),
        added.wf(),
        added.range.len > 0,
        on_blocks(added.range, block_size),
        overlaps_between(before, added, first, behind),
        pieces_cover(before, added, first, behind, left, middle),
    ensures
        runs_wf((before.take(first) + middle) + before.skip(behind), block_size),
{
    let after = (before.take(first) + middle) + before.skip(behind);
    let m = middle.len() as int;
    assert forall|k: int| 0 <= k < m implies (#[trigger] middle[k]).wf() && middle[k].range.len > 0
        && on_blocks(middle[k].range, block_size) && (k < left.len() || middle[k].range.offset
        >= added.range.offset) && (forall|i: int|
        0 <= i < first ==> (#[trigger] before[i]).range.end() <= middle[k].range.offset) && (forall|
        i: int,
    |
        behind <= i < before.len() ==> middle[k].range.end() <= (#[trigger] before[i]).range.offset) by {
        if k < left.len() {
            assert(middle.take(left.len() as int)[k] == middle[k]);
            assert(before[first].range.offset < added.range.offset);
            assert forall|i: int| 0 <= i < first implies (#[trigger] before[i]).range.end()
                <= middle[k].range.offset by {
                assert(before[i].range.end() <= before[first].range.offset);
            }
        } else if k > left.len() {
            assert(middle[k] == middle.last());
            assert(before[behind - 1].range.end() > added.range.end());
            assert forall|i: int| behind <= i < before.len() implies middle[k].range.end() <= (
            #[trigger] before[i]).range.offset by {
                assert(before[behind - 1].range.end() <= before[i].range.offset);
            }
        }
    }
    assert forall|k: int, l: int| 0 <= k < l < m implies (#[trigger] middle[k]).range.end() <= (
    #[trigger] middle[l]).range.offset by {
        if k < left.len() {
            assert(middle.take(left.len() as int)[k] == middle[k]);
        }
        if l > left.len() {
            assert(middle[l] == middle.last());
        }
    }
    assert forall|i: int| 0 <= i < after.len() implies (#[trigger] after[i]).wf()
        && after[i].range.len > 0 && on_blocks(after[i].range, block_size) by {
        if i < first {
            assert(after[i] == before[i]);
        } else if i < first + m {
            assert(after[i] == middle[i - first]);
        } else {
            assert(after[i] == before[behind + (i - first - m)]);
        }
    }
    assert forall|i: int, j: int| 0 <= i < j < after.len() implies (#[trigger] after[i]).range.end()
        <= (#[trigger] after[j]).range.offset by {
        let a = if i < first {
            before[i]
        } else if i < first + m {
            middle[i - first]
        } else {
            before[behind + (i - first - m)]
        };
        let b = if j < first {
            before[j]
        } else if j < first + m {
            middle[j - first]
        } else {
            before[behind + (j - first - m)]
        };
        assert(after[i] == a && after[j] == b);
    }
}

proof fn lemma_inserted_piece_bytes(
    before: Seq<BlockJournalOverlayEntry>,
    block_size: u64,
    added: BlockJournalOverlayEntry,
    first: int,
    behind: int,
    left: Seq<BlockJournalOverlayEntry>,
    middle: Seq<BlockJournalOverlayEntry>,
    place: int,
)
    requires
        runs_wf(before, block_size),
        added.range.len > 0,
        overlaps_between(before, added, first, behind),
        pieces_cover(before, added, first, behind, left, middle),
    ensures
        overlay_at(middle, place) == if added.range.contains(place) {
            Some(added.byte_at(place))
        } else {
            overlay_at(before.subrange(first, behind), place)
        },
{
    let over = before.subrange(first, behind);
    let n = left.len() as int;
    let has_left = first < behind && before[first].range.offset < added.range.offset;
    let has_right = first < behind && before[behind - 1].range.end() > added.range.end();
    // The middle is the left piece, the added range and the right piece.
    let upto = middle.take(n + 1);
    assert(upto.drop_last() =~= left);
    assert(upto.last() == added);
    if has_left {
        assert(left.drop_last() =~= Seq::<BlockJournalOverlayEntry>::empty());
        assert(left.last() == left[0]);
    }
    reveal_with_fuel(overlay_at, 2);
    let left_byte = if has_left && left[0].range.contains(place) {
        Some(left[0].byte_at(place))
    } else {
        None
    };
    assert(overlay_at(left, place) == left_byte);
    if has_right {
        assert(middle.drop_last() =~= upto);
    } else {
        assert(middle =~= upto);
    }
    if !added.range.contains(place) {
        if place < added.range.offset {
            // Only the first overlapped run reaches below the added range.
            if first < behind {
                assert forall|i: int| 0 <= i < over.len() implies (i == 0 || !(
                #[trigger] over[i]).range.contains(place)) by {
                    if i > 0 {
                        assert(before[first].range.end() <= before[first + i].range.offset);
                        assert(before[first].range.end() > added.range.offset);
                    }
                }
                lemma_overlay_only(over, 0, place);
                assert(over[0] == before[first]);
            }
        } else {
            if first < behind {
                assert forall|i: int| 0 <= i < over.len() implies (i == over.len() - 1 || !(
                #[trigger] over[i]).range.contains(place)) by {
                    if i < over.len() - 1 {
                        assert(before[first + i].range.end() <= before[behind - 1].range.offset);
                        assert(before[behind - 1].range.offset < added.range.end());
                    }
                }
                lemma_overlay_only(over, over.len() - 1, place);
                assert(over[over.len() - 1] == before[behind - 1]);
            }
        }
    }
}

proof fn lemma_overlay_only(runs: Seq<BlockJournalOverlayEntry>, only: int, place: int)
    requires
        0 <= only < runs.len(),
        forall|i: int|
            0 <= i < runs.len() ==> (i == only || !(#[trigger] runs[i]).range.contains(place)),
    ensures
        overlay_at(runs, place) == if runs[only].range.contains(place) {
            Some(runs[only].byte_at(place))
        } else {
            None
        },
    decreases runs.len(),
{
    let shorter = runs.drop_last();
    if only == runs.len() - 1 {
        assert forall|i: int| 0 <= i < shorter.len() implies !(
        #[trigger] shorter[i]).range.contains(place) by {
            assert(!runs[i].range.contains(place));
        }
        lemma_overlay_absent(shorter, place);
    } else {
        assert(!runs[runs.len() - 1].range.contains(place));
        assert forall|i: int| 0 <= i < shorter.len() implies (i == only || !(
        #[trigger] shorter[i]).range.contains(place)) by {
            assert(runs[i] == shorter[i]);
        }
        lemma_overlay_only(shorter, only, place);
        assert(shorter[only] == runs[only]);
    }
}

/// The journaled state of one device.
#[derive(Debug)]
pub struct BlockJournalDeviceOverlay {
    pub writer_epoch: WriterEpoch,
    pub durable_through: CommitSeq,
    pub visible_through: CommitSeq,
    pub block_size: Option<u64>,
    /// The newest journaled ranges, ascending and apart from each other.
    pub lba_runs: Vec<BlockJournalOverlayEntry>,
}

impl BlockJournalDeviceOverlay {
    pub open spec fn wf(&self) -> bool {
        match self.block_size {
            Some(block_size) => runs_wf(self.lba_runs@, block_size),
            None => self.lba_runs@.len() == 0,
        }
    }

    pub fn empty() -> (device: BlockJournalDeviceOverlay)
        ensures
            device.wf(),
            device.writer_epoch.0 == 0,
            device.durable_through.0 == 0,
            device.visible_through.0 == 0,
            device.block_size is None,
            device.lba_runs@.len() == 0,
    {
        BlockJournalDeviceOverlay {
            writer_epoch: WriterEpoch(0),
            durable_through: CommitSeq(0),
            visible_through: CommitSeq(0),
            block_size: None,
            lba_runs: Vec::new(),
        }
    }

    /// Whether the device may keep ranges of this block size.
    pub open spec fn takes_block_size(&self, block_size: u64) -> bool {
        block_size > 0 && (self.block_size matches Some(existing) ==> existing == block_size)
    }
}

/// Fixes the block size of a device the first time and holds it to it later.
pub fn set_block_journal_overlay_block_size(
    device: &mut BlockJournalDeviceOverlay,
    block_size: u64,
) -> (result: Result<(), StorageError>)
    requires
        old(device).wf(),
    ensures
        final(device).wf(),
        result is Ok <==> old(device).takes_block_size(block_size),
        result is Ok ==> final(device).block_size == Some(block_size),
        final(device).writer_epoch == old(device).writer_epoch,
        final(device).durable_through == old(device).durable_through,
        final(device).visible_through == old(device).visible_through,
        final(device).lba_runs@ == old(device).lba_runs@,
        result matches Err(error) ==> error is Corrupt && final(device).block_size == old(
            device,
        ).block_size,
{
    if block_size == 0 {
        return Err(StorageError::corrupt("block journal LBA map block size must be nonzero"));
    }
    match device.block_size {
        Some(existing) => {
            if existing != block_size {
                Err(StorageError::corrupt("block journal LBA map block size changed for device"))
            } else {
                Ok(())
            }
        },
        None => {
            device.block_size = Some(block_size);
            Ok(())
        },
    }
}

/// Whether the ranges ascend and are apart from each other.
spec fn apart(entries: Seq<BlockJournalOverlayEntry>) -> bool {
    forall|i: int, j: int|
        0 <= i < j < entries.len() ==> (#[trigger] entries[i]).range.end() <= (
        #[trigger] entries[j]).range.offset
}

/// Adds a range to read, merged with the last where one read serves both.
fn push_coalesced_block_journal_lba_read_entry(
    out: &mut Vec<BlockJournalOverlayEntry>,
    entry: BlockJournalOverlayEntry,
) -> (result: Result<(), StorageError>)
    requires
        entries_wf(old(out)@),
        entry.wf(),
    ensures
        result is Ok,
        entries_wf(final(out)@),
        final(out)@.len() > 0 && final(out)@.last().range.end() == entry.range.end(),
        apart(old(out)@) && (old(out)@.len() > 0 ==> old(out)@.last().range.end()
            <= entry.range.offset) ==> apart(final(out)@),
        forall|place: int| #[trigger]
            overlay_at(final(out)@, place) == if entry.range.contains(place) {
                Some(entry.byte_at(place))
            } else {
                overlay_at(old(out)@, place)
            },
{
    let ghost before = out@;
    match out.pop() {
        Some(mut last) => {
            let ghost left = last;
            let ghost shorter = out@;
            assert(before.last() == left);
            assert(shorter =~= before.drop_last());
            match try_extend_block_journal_lba_read_entry(&mut last, &entry) {
                Ok(extended) => {
                    let ghost joined = last;
                    out.push(last);
                    if extended {
                        assert forall|place: int| #[trigger] overlay_at(out@, place)
                            == if entry.range.contains(place) {
                            Some(entry.byte_at(place))
                        } else {
                            overlay_at(before, place)
                        } by {
                            lemma_overlay_push(shorter, joined, place);
                            if joined.range.contains(place) {
                                assert(joined.byte_at(place) == if place < left.range.end() {
                                    left.byte_at(place)
                                } else {
                                    entry.byte_at(place)
                                });
                            }
                        }
                    } else {
                        assert(out@ =~= before);
                        let ghost added = entry;
                        out.push(entry);
                        assert forall|place: int| #[trigger] overlay_at(out@, place)
                            == if added.range.contains(place) {
                            Some(added.byte_at(place))
                        } else {
                            overlay_at(before, place)
                        } by {
                            lemma_overlay_push(before, added, place);
                        }
                    }
                    Ok(())
                },
                Err(error) => Err(error),
            }
        },
        None => {
            let ghost added = entry;
            out.push(entry);
            assert forall|place: int| #[trigger] overlay_at(out@, place) == if added.range.contains(
                place,
            ) {
                Some(added.byte_at(place))
            } else {
                overlay_at(before, place)
            } by {
                lemma_overlay_push(before, added, place);
            }
            Ok(())
        },
    }
}

/// What a journaled byte reads as.
pub open spec fn read_value<S: StorageNodeReadService>(storage: &S, byte: OverlayByte) -> u8 {
    match byte {
        OverlayByte::Inline { value, .. } => value,
        OverlayByte::Stored { storage_node, segment_id, offset } => storage.stored_byte(
            storage_node,
            segment_id,
            offset,
        ),
        OverlayByte::Zero => 0,
    }
}

/// Whether the journal alone can answer a read of the byte: it is not in a
/// segment, and it has a checksum where the read asks for one.
pub open spec fn readable_inline(byte: OverlayByte, verification: ReadVerification) -> bool {
    match byte {
        OverlayByte::Inline { payload_integrity, .. } => verification
            == ReadVerification::RequireVerified ==> payload_integrity
            == PayloadIntegrity::Verified,
        OverlayByte::Stored { .. } => false,
        OverlayByte::Zero => true,
    }
}

/// Writes the part of a journaled range that a read asks for into its buffer.
pub fn apply_block_journal_read_entry<S: StorageNodeReadService>(
    storage: &S,
    entry: &BlockJournalOverlayEntry,
    requested: ByteRange,
    verification: ReadVerification,
    buf: &mut [u8],
) -> (result: Result<(), StorageError>)
    requires
        entry.wf(),
    ensures
        final(buf)@.len() == old(buf)@.len(),
        result is Ok ==> forall|i: int|
            0 <= i < final(buf)@.len() ==> #[trigger] final(buf)@[i] == if i < requested.len
                && entry.range.contains(requested.offset + i) {
                read_value(storage, entry.byte_at(requested.offset + i))
            } else {
                old(buf)@[i]
            },
        requested.end() <= u64::MAX && old(buf)@.len() >= requested.len && (forall|place: int|
            requested.contains(place) && entry.range.contains(place) ==> readable_inline(
                #[trigger] entry.byte_at(place),
                verification,
            )) ==> result is Ok,
        requested.end() <= u64::MAX && verification == ReadVerification::RequireVerified
            && entry.source.kind() == (SourceKind::Inline {
            payload_integrity: PayloadIntegrity::Unchecked,
        }) && (exists|place: int| #[trigger]
            requested.contains(place) && entry.range.contains(place)) ==> result is Err,
{
    let overlap = match byte_range_intersection(entry.range, requested) {
        Ok(Some(overlap)) => overlap,
        Ok(None) => {
            proof {
                assert forall|i: int| 0 <= i < requested.len implies !(#[trigger] entry.range.contains(
                    requested.offset + i,
                )) by {
                    assert(requested.contains(requested.offset + i));
                }
            }
            return Ok(());
        },
        Err(error) => return Err(error),
    };
    let buf_len: usize = buf.len();
    let output_start: u64 = overlap.offset - requested.offset;
    let output_end: u64 = output_start + overlap.len;
    if output_end > buf_len as u64 {
        return Err(StorageError::corrupt("block journal read output out of bounds"));
    }
    let ghost skipped = overlap.offset - entry.range.offset;
    assert(overlap.contains(overlap.offset as int));
    assert(requested.contains(overlap.offset as int) && entry.range.contains(overlap.offset as int));
    let bytes: Vec<u8> = match &entry.source {
        BlockJournalOverlaySource::Sparse => {
            let mut zeros: Vec<u8> = Vec::new();
            zeros.resize(overlap.len as usize, 0);
            zeros
        },
        BlockJournalOverlaySource::Bytes { payload_integrity, bytes, source_offset } => {
            let bytes_len: usize = bytes.len();
            let source_start: u64 = *source_offset + (overlap.offset - entry.range.offset);
            let source_end: u64 = source_start + overlap.len;
            let source = vstd::slice::slice_to_vec(
                vstd::slice::slice_subrange(
                    bytes.as_slice(),
                    source_start as usize,
                    source_end as usize,
                ),
            );
            if verification != ReadVerification::Skip {
                let integrity = segment_payload_integrity(*payload_integrity, source.as_slice());
                match verify_read_integrity_policy(integrity, verification) {
                    Ok(()) => {},
                    Err(error) => {
                        assert(!readable_inline(entry.byte_at(overlap.offset as int), verification));
                        return Err(error);
                    },
                }
            }
            source
        },
        BlockJournalOverlaySource::BytesFragments { payload_integrity, fragments, source_offset } => {
            proof {
                crate::journal_sources::lemma_fragments_len(fragments@);
            }
            let source_start: u64 = *source_offset + (overlap.offset - entry.range.offset);
            let source = match copy_block_journal_inline_fragments(
                fragments,
                source_start,
                overlap.len,
            ) {
                Ok(source) => source,
                Err(error) => return Err(error),
            };
            if verification != ReadVerification::Skip {
                let integrity = segment_payload_integrity(*payload_integrity, source.as_slice());
                match verify_read_integrity_policy(integrity, verification) {
                    Ok(()) => {},
                    Err(error) => {
                        assert(!readable_inline(entry.byte_at(overlap.offset as int), verification));
                        return Err(error);
                    },
                }
            }
            source
        },
        BlockJournalOverlaySource::Segment {
            storage_node,
            segment_id,
            segment_offset,
            integrity,
        } => {
            let source_offset: u64 = *segment_offset + (overlap.offset - entry.range.offset);
            let mut output: Vec<u8> = Vec::new();
            output.resize(overlap.len as usize, 0);
            assert(!readable_inline(entry.byte_at(overlap.offset as int), verification));
            match storage.read_segment_source(
                *storage_node,
                *segment_id,
                ByteRange { offset: source_offset, len: overlap.len },
                *integrity,
                verification,
                output.as_mut_slice(),
            ) {
                Ok(()) => {},
                Err(error) => return Err(error),
            }
            output
        },
    };
    assert forall|k: int| 0 <= k < overlap.len implies #[trigger] bytes@[k] == read_value(
        storage,
        entry.byte_at(overlap.offset + k),
    ) by {}
    let mut k: usize = 0;
    let ghost before = buf@;
    while k < bytes.len()
        invariant
            k <= bytes@.len(),
            bytes@.len() == overlap.len,
            output_start + overlap.len <= buf@.len(),
            buf@.len() == before.len() == buf_len,
            forall|i: int|
                0 <= i < buf@.len() ==> #[trigger] buf@[i] == if output_start <= i < output_start
                    + k {
                    bytes@[i - output_start]
                } else {
                    before[i]
                },
        decreases bytes@.len() - k,
    {
        buf[output_start as usize + k] = bytes[k];
        k = k + 1;
    }
    assert forall|i: int| 0 <= i < buf@.len() implies #[trigger] buf@[i] == if i < requested.len
        && entry.range.contains(requested.offset + i) {
        read_value(storage, entry.byte_at(requested.offset + i))
    } else {
        before[i]
    } by {
        let place = requested.offset + i;
        assert(overlap.contains(place) <==> entry.range.contains(place) && requested.contains(place));
    }
    Ok(())
}

/// The larger of two writer epochs.
pub open spec fn later_epoch(a: WriterEpoch, b: WriterEpoch) -> WriterEpoch {
    if a.0 >= b.0 {
        a
    } else {
        b
    }
}

/// The later of two commits.
pub open spec fn later_commit(a: CommitSeq, b: CommitSeq) -> CommitSeq {
    if a.0 >= b.0 {
        a
    } else {
        b
    }
}

fn max_epoch(a: WriterEpoch, b: WriterEpoch) -> (later: WriterEpoch)
    ensures
        later == later_epoch(a, b),
{
    if a.raw() >= b.raw() {
        a
    } else {
        b
    }
}

fn max_commit(a: CommitSeq, b: CommitSeq) -> (later: CommitSeq)
    ensures
        later == later_commit(a, b),
{
    if a.raw() >= b.raw() {
        a
    } else {
        b
    }
}

/// The journaled state of all devices.
#[derive(Debug)]
pub struct BlockJournalOverlay {
    pub devices: IdMap<BlockJournalDeviceOverlay>,
}

impl BlockJournalOverlay {
    pub open spec fn wf(&self) -> bool {
        forall|id: u128| #[trigger] self.devices@.contains_key(id) ==> self.devices@[id].wf()
    }

    pub open spec fn epoch_of(&self, device_id: DeviceId) -> WriterEpoch {
        if self.devices@.contains_key(device_id.0) {
            self.devices@[device_id.0].writer_epoch
        } else {
            WriterEpoch(0)
        }
    }

    pub open spec fn durable_of(&self, device_id: DeviceId) -> CommitSeq {
        if self.devices@.contains_key(device_id.0) {
            self.devices@[device_id.0].durable_through
        } else {
            CommitSeq(0)
        }
    }

    pub open spec fn visible_of(&self, device_id: DeviceId) -> CommitSeq {
        if self.devices@.contains_key(device_id.0) {
            self.devices@[device_id.0].visible_through
        } else {
            CommitSeq(0)
        }
    }

    pub open spec fn block_size_of(&self, device_id: DeviceId) -> Option<u64> {
        if self.devices@.contains_key(device_id.0) {
            self.devices@[device_id.0].block_size
        } else {
            None
        }
    }

    /// The journaled byte of a device at a place, if there is one.
    pub open spec fn byte_of(&self, device_id: DeviceId, place: int) -> Option<OverlayByte> {
        if self.devices@.contains_key(device_id.0) {
            overlay_at(self.devices@[device_id.0].lba_runs@, place)
        } else {
            None
        }
    }

    /// Whether nothing but one device differs.
    pub open spec fn same_but(&self, other: &BlockJournalOverlay, device_id: DeviceId) -> bool {
        self.devices@.remove(device_id.0) == other.devices@.remove(device_id.0)
    }

    pub fn new() -> (overlay: BlockJournalOverlay)
        ensures
            overlay.wf(),
            overlay.devices@ == Map::<u128, BlockJournalDeviceOverlay>::empty(),
    {
        BlockJournalOverlay { devices: IdMap::new() }
    }

    fn take_device(&mut self, device_id: DeviceId) -> (device: BlockJournalDeviceOverlay)
        requires
            old(self).wf(),
        ensures
            final(self).wf(),
            final(self).devices@ == old(self).devices@.remove(device_id.0),
            device.wf(),
            device.writer_epoch == old(self).epoch_of(device_id),
            device.durable_through == old(self).durable_of(device_id),
            device.visible_through == old(self).visible_of(device_id),
            device.block_size == old(self).block_size_of(device_id),
            forall|place: int| #[trigger]
                overlay_at(device.lba_runs@, place) == old(self).byte_of(device_id, place),
    {
        match self.devices.remove(device_id.raw()) {
            Some(device) => device,
            None => BlockJournalDeviceOverlay::empty(),
        }
    }

    fn put_device(&mut self, device_id: DeviceId, device: BlockJournalDeviceOverlay)
        requires
            old(self).wf(),
            device.wf(),
        ensures
            final(self).wf(),
            final(self).devices@ == old(self).devices@.insert(device_id.0, device),
    {
        self.devices.insert(device_id.raw(), device);
    }

    /// Raises the writer epoch of a device.
    pub fn set_writer_epoch(&mut self, device_id: DeviceId, writer_epoch: WriterEpoch)
        requires
            old(self).wf(),
        ensures
            final(self).wf(),
            final(self).same_but(old(self), device_id),
            final(self).epoch_of(device_id) == later_epoch(
                old(self).epoch_of(device_id),
                writer_epoch,
            ),
            final(self).durable_of(device_id) == old(self).durable_of(device_id),
            final(self).visible_of(device_id) == old(self).visible_of(device_id),
            final(self).block_size_of(device_id) == old(self).block_size_of(device_id),
            forall|place: int| #[trigger]
                final(self).byte_of(device_id, place) == old(self).byte_of(device_id, place),
    {
        let mut device = self.take_device(device_id);
        device.writer_epoch = max_epoch(device.writer_epoch, writer_epoch);
        self.put_device(device_id, device);
        assert(self.devices@.remove(device_id.0) =~= old(self).devices@.remove(device_id.0));
    }

    pub fn writer_epoch(&self, device_id: DeviceId) -> (epoch: WriterEpoch)
        ensures
            epoch == self.epoch_of(device_id),
    {
        match self.devices.get(device_id.raw()) {
            Some(device) => device.writer_epoch,
            None => WriterEpoch(0),
        }
    }

    pub fn durable_through(&self, device_id: DeviceId) -> (commit: CommitSeq)
        ensures
            commit == self.durable_of(device_id),
    {
        match self.devices.get(device_id.raw()) {
            Some(device) => device.durable_through,
            None => CommitSeq(0),
        }
    }

    pub fn visible_through(&self, device_id: DeviceId) -> (commit: CommitSeq)
        ensures
            commit == self.visible_of(device_id),
    {
        match self.devices.get(device_id.raw()) {
            Some(device) => device.visible_through,
            None => CommitSeq(0),
        }
    }

    /// Lays a commit over what is journaled for its device.
    pub fn apply_commit(&mut self, commit: &BlockJournalCommit, block_size: u64) -> (result: Result<
        (),
        StorageError,
    >)
        requires
            old(self).wf(),
            entries_loadable(commit.entries@),
        ensures
            final(self).wf(),
            final(self).same_but(old(self), commit.device_id),
            final(self).durable_of(commit.device_id) == old(self).durable_of(commit.device_id),
            result is Ok <==> block_size > 0 && (old(self).block_size_of(commit.device_id) matches
                Some(existing) ==> existing == block_size) && forall|i: int|
                0 <= i < coalesced_runs(commit.entries@).len() ==> on_blocks(
                    (#[trigger] coalesced_runs(commit.entries@)[i]).range,
                    block_size,
                ),
            result is Ok ==> final(self).block_size_of(commit.device_id) == Some(block_size),
            result is Ok ==> final(self).epoch_of(commit.device_id) == later_epoch(
                old(self).epoch_of(commit.device_id),
                commit.writer_epoch,
            ),
            result is Ok ==> final(self).visible_of(commit.device_id) == later_commit(
                old(self).visible_of(commit.device_id),
                commit.commit_seq,
            ),
            result is Ok ==> forall|place: int| #[trigger]
                final(self).byte_of(commit.device_id, place) == match commit_byte(
                    commit.entries@,
                    place,
                ) {
                    Some(byte) => Some(byte),
                    None => old(self).byte_of(commit.device_id, place),
                },
            result matches Err(error) ==> error is Corrupt,
    {
        let device_id = commit.device_id;
        let mut device = self.take_device(device_id);
        match set_block_journal_overlay_block_size(&mut device, block_size) {
            Ok(()) => {},
            Err(error) => {
                self.put_device(device_id, device);
                assert(self.devices@.remove(device_id.0) =~= old(self).devices@.remove(
                    device_id.0,
                ));
                return Err(error);
            },
        }
        device.writer_epoch = max_epoch(device.writer_epoch, commit.writer_epoch);
        device.visible_through = max_commit(device.visible_through, commit.commit_seq);
        let mut entries = match commit.overlay_entries() {
            Ok(entries) => entries,
            Err(error) => return Err(error),
        };
        let ghost all = entries@;
        let ghost runs = coalesced_runs(commit.entries@);
        let ghost base = device.lba_runs@;
        proof {
            assert(runs_of(all) == runs);
            assert forall|i: int| 0 <= i < all.len() implies runs[i] == (#[trigger] all[i]).run() by {
                assert(runs_of(all)[i] == all[i].run());
            }
        }
        // Taken from the back, the entries come off in reverse; turn them round first.
        let mut reversed: Vec<BlockJournalOverlayEntry> = Vec::new();
        while entries.len() > 0
            invariant
                entries@.len() + reversed@.len() == all.len(),
                entries@ == all.take(entries@.len() as int),
                forall|k: int|
                    0 <= k < reversed@.len() ==> #[trigger] reversed@[k] == all[all.len() - 1 - k],
            decreases entries@.len(),
        {
            let ghost n = entries@.len() as int;
            match entries.pop() {
                Some(entry) => {
                    reversed.push(entry);
                    assert(entries@ =~= all.take(n - 1));
                },
                None => {},
            }
        }
        let ghost mut applied: int = 0;
        while reversed.len() > 0
            invariant
                0 <= applied <= all.len(),
                applied + reversed@.len() == all.len(),
                forall|k: int|
                    0 <= k < reversed@.len() ==> #[trigger] reversed@[k] == all[all.len() - 1 - k],
                entries_wf(all),
                runs.len() == all.len(),
                forall|i: int| 0 <= i < all.len() ==> runs[i] == (#[trigger] all[i]).run(),
                runs == coalesced_runs(commit.entries@),
                device_id == commit.device_id,
                block_size > 0,
                device.wf(),
                device.block_size == Some(block_size),
                device.writer_epoch == later_epoch(
                    old(self).epoch_of(device_id),
                    commit.writer_epoch,
                ),
                device.visible_through == later_commit(
                    old(self).visible_of(device_id),
                    commit.commit_seq,
                ),
                device.durable_through == old(self).durable_of(device_id),
                old(self).block_size_of(device_id) matches Some(existing) ==> existing
                    == block_size,
                forall|i: int| 0 <= i < applied ==> on_blocks((#[trigger] runs[i]).range, block_size),
                forall|place: int| #[trigger]
                    overlay_at(device.lba_runs@, place) == match run_byte(
                        runs.take(applied),
                        place,
                    ) {
                        Some(byte) => Some(byte),
                        None => old(self).byte_of(device_id, place),
                    },
                self.wf(),
                self.devices@ == old(self).devices@.remove(device_id.0),
            decreases reversed@.len(),
        {
            match reversed.pop() {
                Some(entry) => {
                    let ghost added = entry;
                    assert(added == all[applied]);
                    assert(added.wf());
                    let ghost before = device.lba_runs@;
                    match insert_block_journal_lba_run(&mut device.lba_runs, block_size, entry) {
                        Ok(()) => {},
                        Err(error) => {
                            proof {
                                assert(runs[applied] == all[applied].run());
                                assert(!on_blocks(runs[applied].range, block_size));
                            }
                            self.put_device(device_id, device);
                            assert(self.devices@.remove(device_id.0) =~= old(self).devices@.remove(
                                device_id.0,
                            ));
                            return Err(error);
                        },
                    }
                    proof {
                        let (shorter, longer) = (runs.take(applied), runs.take(applied + 1));
                        assert(longer.drop_last() =~= shorter);
                        assert(longer.last() == added.run());
                        assert forall|place: int| #[trigger]
                            overlay_at(device.lba_runs@, place) == match run_byte(longer, place) {
                            Some(byte) => Some(byte),
                            None => old(self).byte_of(device_id, place),
                        } by {
                            assert(overlay_at(before, place) == match run_byte(shorter, place) {
                                Some(byte) => Some(byte),
                                None => old(self).byte_of(device_id, place),
                            });
                            if added.range.contains(place) {
                                assert(added.run().bytes[place - added.range.offset]
                                    == added.byte_at(place));
                            }
                        }
                        applied = applied + 1;
                    }
                },
                None => {},
            }
        }
        self.put_device(device_id, device);
        proof {
            assert(self.devices@.remove(device_id.0) =~= old(self).devices@.remove(device_id.0));
            assert(runs.take(runs.len() as int) =~= runs);
            assert forall|place: int| #[trigger] self.byte_of(device_id, place)
                == match commit_byte(commit.entries@, place) {
                Some(byte) => Some(byte),
                None => old(self).byte_of(device_id, place),
            } by {
                lemma_coalesced_bytes(commit.entries@, place);
            }
        }
        Ok(())
    }

    /// Records that a device's commits are durable up to one.
    pub fn mark_durable(
        &mut self,
        device_id: DeviceId,
        writer_epoch: WriterEpoch,
        durable_through: CommitSeq,
    )
        requires
            old(self).wf(),
        ensures
            final(self).wf(),
            final(self).same_but(old(self), device_id),
            final(self).epoch_of(device_id) == later_epoch(
                old(self).epoch_of(device_id),
                writer_epoch,
            ),
            final(self).durable_of(device_id) == later_commit(
                old(self).durable_of(device_id),
                durable_through,
            ),
            final(self).visible_of(device_id) == old(self).visible_of(device_id),
            final(self).block_size_of(device_id) == old(self).block_size_of(device_id),
            forall|place: int| #[trigger]
                final(self).byte_of(device_id, place) == old(self).byte_of(device_id, place),
    {
        let mut device = self.take_device(device_id);
        device.writer_epoch = max_epoch(device.writer_epoch, writer_epoch);
        device.durable_through = max_commit(device.durable_through, durable_through);
        self.put_device(device_id, device);
        assert(self.devices@.remove(device_id.0) =~= old(self).devices@.remove(device_id.0));
    }

    /// Whether a read of `requested` meets the journal of the device on its
    /// blocks.
    pub open spec fn read_on_blocks(&self, device_id: DeviceId, requested: ByteRange) -> bool {
        self.devices@.contains_key(device_id.0) && self.devices@[device_id.0].lba_runs@.len() > 0
            ==> on_blocks(requested, self.devices@[device_id.0].block_size->0)
    }

    /// Whether the journal alone can serve a read: the range is sound, the
    /// buffer is long enough and every journaled byte in it is readable.
    pub open spec fn read_owed(
        &self,
        device_id: DeviceId,
        requested: ByteRange,
        verification: ReadVerification,
        buf_len: nat,
    ) -> bool {
        &&& requested.end() <= u64::MAX
        &&& self.read_on_blocks(device_id, requested)
        &&& buf_len >= requested.len
        &&& forall|place: int|
            requested.contains(place) ==> (#[trigger] self.byte_of(device_id, place) matches Some(
                byte,
            ) ==> readable_inline(byte, verification))
    }

    /// Writes what is journaled for a range over the bytes read below it and
    /// leaves the other bytes alone.
    pub fn apply_read_overlay<S: StorageNodeReadService>(
        &self,
        storage: &S,
        device_id: DeviceId,
        requested: ByteRange,
        verification: ReadVerification,
        buf: &mut [u8],
    ) -> (result: Result<(), StorageError>)
        requires
            self.wf(),
        ensures
            final(buf)@.len() == old(buf)@.len(),
            result is Ok ==> requested.end() <= u64::MAX && self.read_on_blocks(
                device_id,
                requested,
            ),
            result is Ok ==> forall|i: int|
                0 <= i < final(buf)@.len() ==> #[trigger] final(buf)@[i] == if i < requested.len {
                    match self.byte_of(device_id, requested.offset + i) {
                        Some(byte) => read_value(storage, byte),
                        None => old(buf)@[i],
                    }
                } else {
                    old(buf)@[i]
                },
            self.read_owed(device_id, requested, verification, old(buf)@.len()) ==> result is Ok,
    {
        let requested_end: u64 = match requested.end_exclusive() {
            Ok(end) => end,
            Err(error) => return Err(error),
        };
        let device = match self.devices.get(device_id.raw()) {
            Some(device) => device,
            None => return Ok(()),
        };
        if device.lba_runs.len() == 0 {
            return Ok(());
        }
        let block_size: u64 = match device.block_size {
            Some(block_size) => block_size,
            None => return Err(
                StorageError::corrupt("block journal LBA map has runs without block size"),
            ),
        };
        match block_journal_lba_bounds(requested, block_size) {
            Ok(_) => {},
            Err(_) => return Err(
                StorageError::corrupt("block journal LBA map read is not block aligned"),
            ),
        }
        let ghost runs = device.lba_runs@;
        let mut entries: Vec<BlockJournalOverlayEntry> = Vec::new();
        let mut i: usize = 0;
        assert(runs.take(0) =~= Seq::<BlockJournalOverlayEntry>::empty());
        while i < device.lba_runs.len()
            invariant
                i <= runs.len(),
                runs == device.lba_runs@,
                runs_wf(runs, block_size),
                requested_end == requested.end(),
                entries_wf(entries@),
                forall|place: int|
                    requested.contains(place) ==> #[trigger] overlay_at(entries@, place)
                        == overlay_at(runs.take(i as int), place),
                apart(entries@),
                entries@.len() > 0 ==> i > 0 && entries@.last().range.end() <= runs[i
                    - 1].range.end(),
            decreases runs.len() - i,
        {
            let run = &device.lba_runs[i];
            proof {
                assert(runs[i as int].wf());
                assert(runs.take(i + 1).drop_last() =~= runs.take(i as int));
            }
            let run_end: u64 = run.range.offset + run.range.len;
            let ghost before = entries@;
            if run.range.offset < requested_end && run_end > requested.offset {
                match block_journal_overlay_slice(run, run.range) {
                    Ok(entry) => {
                        let ghost added = entry;
                        match push_coalesced_block_journal_lba_read_entry(&mut entries, entry) {
                            Ok(()) => {},
                            Err(error) => return Err(error),
                        }
                        assert forall|place: int| requested.contains(place)
                            implies #[trigger] overlay_at(entries@, place) == overlay_at(
                            runs.take(i + 1),
                            place,
                        ) by {
                            assert(overlay_at(before, place) == overlay_at(
                                runs.take(i as int),
                                place,
                            ));
                            assert(added.byte_at(place) == run.byte_at(place));
                        }
                    },
                    Err(error) => {
                        assert(false);
                        return Err(error);
                    },
                }
            } else {
                assert forall|place: int| requested.contains(place) implies #[trigger] overlay_at(
                    entries@,
                    place,
                ) == overlay_at(runs.take(i + 1), place) by {
                    assert(!run.range.contains(place));
                }
            }
            i = i + 1;
        }
        assert(runs.take(runs.len() as int) =~= runs);
        let ghost original = buf@;
        let ghost owed = original.len() >= requested.len && (forall|place: int|
            requested.contains(place) ==> (#[trigger] overlay_at(runs, place) matches Some(byte)
                ==> readable_inline(byte, verification)));
        proof {
            if self.read_owed(device_id, requested, verification, original.len()) {
                assert forall|place: int| requested.contains(place) implies (
                #[trigger] overlay_at(runs, place) matches Some(byte) ==> readable_inline(
                    byte,
                    verification,
                )) by {
                    assert(self.byte_of(device_id, place) == overlay_at(runs, place));
                }
            }
        }
        let mut k: usize = 0;
        assert(entries@.take(0) =~= Seq::<BlockJournalOverlayEntry>::empty());
        while k < entries.len()
            invariant
                k <= entries@.len(),
                entries_wf(entries@),
                requested.end() <= u64::MAX,
                buf@.len() == original.len(),
                owed == (original.len() >= requested.len && (forall|place: int|
                    requested.contains(place) ==> (#[trigger] overlay_at(runs, place) matches Some(
                        byte,
                    ) ==> readable_inline(byte, verification)))),
                forall|place: int|
                    requested.contains(place) ==> #[trigger] overlay_at(entries@, place)
                        == overlay_at(runs, place),
                forall|i: int|
                    0 <= i < buf@.len() ==> #[trigger] buf@[i] == if i < requested.len {
                        match overlay_at(entries@.take(k as int), requested.offset + i) {
                            Some(byte) => read_value(storage, byte),
                            None => original[i],
                        }
                    } else {
                        original[i]
                    },
                old(buf)@ == original,
                self.read_owed(device_id, requested, verification, original.len()) ==> owed,
                apart(entries@),
            decreases entries@.len() - k,
        {
            let ghost before = buf@;
            proof {
                if owed {
                    assert forall|place: int| requested.contains(place)
                        && entries@[k as int].range.contains(place) implies readable_inline(
                        #[trigger] entries@[k as int].byte_at(place),
                        verification,
                    ) by {
                        lemma_overlay_only(entries@, k as int, place);
                        assert(overlay_at(entries@, place) == overlay_at(runs, place));
                    }
                }
            }
            match apply_block_journal_read_entry(
                storage,
                &entries[k],
                requested,
                verification,
                buf,
            ) {
                Ok(()) => {},
                Err(error) => {
                    return Err(error);
                },
            }
            proof {
                assert(entries@.take(k + 1).drop_last() =~= entries@.take(k as int));
                assert forall|i: int| 0 <= i < buf@.len() implies #[trigger] buf@[i] == if i
                    < requested.len {
                    match overlay_at(entries@.take(k + 1), requested.offset + i) {
                        Some(byte) => read_value(storage, byte),
                        None => original[i],
                    }
                } else {
                    original[i]
                } by {
                    assert(before[i] == if i < requested.len {
                        match overlay_at(entries@.take(k as int), requested.offset + i) {
                            Some(byte) => read_value(storage, byte),
                            None => original[i],
                        }
                    } else {
                        original[i]
                    });
                }
            }
            k = k + 1;
        }
        proof {
            assert(entries@.take(entries@.len() as int) =~= entries@);
            assert forall|i: int| 0 <= i < buf@.len() implies #[trigger] buf@[i] == if i
                < requested.len {
                match self.byte_of(device_id, requested.offset + i) {
                    Some(byte) => read_value(storage, byte),
                    None => original[i],
                }
            } else {
                original[i]
            } by {
                if i < requested.len {
                    assert(requested.contains(requested.offset + i));
                    assert(overlay_at(entries@, requested.offset + i) == overlay_at(
                        runs,
                        requested.offset + i,
                    ));
                }
            }
        }
        Ok(())
    }

    /// How many ranges are journaled for a device.
    pub fn lba_run_count(&self, device_id: DeviceId) -> (count: usize)
        ensures
            count == if self.devices@.contains_key(device_id.0) {
                self.devices@[device_id.0].lba_runs@.len()
            } else {
                0
            },
    {
        match self.devices.get(device_id.raw()) {
            Some(device) => device.lba_runs.len(),
            None => 0,
        }
    }

    /// How many parts of inline payloads the ranges of a device read from.
    pub fn inline_fragment_count(&self, device_id: DeviceId) -> (count: usize)
        ensures
            count == if self.devices@.contains_key(device_id.0) {
                fragment_total(self.devices@[device_id.0].lba_runs@)
            } else {
                0
            },
    {
        let device = match self.devices.get(device_id.raw()) {
            Some(device) => device,
            None => return 0,
        };
        let mut count: usize = 0;
        let mut i: usize = 0;
        assert(device.lba_runs@.take(0) =~= Seq::<BlockJournalOverlayEntry>::empty());
        while i < device.lba_runs.len()
            invariant
                i <= device.lba_runs@.len(),
                count == fragment_total(device.lba_runs@.take(i as int)),
            decreases device.lba_runs@.len() - i,
        {
            assert(device.lba_runs@.take(i + 1).drop_last() =~= device.lba_runs@.take(i as int));
            let parts: usize = match &device.lba_runs[i].source {
                BlockJournalOverlaySource::Bytes { .. } => 1,
                BlockJournalOverlaySource::BytesFragments { fragments, .. } => fragments.len(),
                _ => 0,
            };
            count = count.saturating_add(parts);
            i = i + 1;
        }
        assert(device.lba_runs@.take(device.lba_runs@.len() as int) =~= device.lba_runs@);
        count
    }

    /// How many separate inline payloads the ranges of a device keep alive.
    /// That is a matter of where the payloads lie, so only a bound is known.
    pub fn inline_payload_count(&self, device_id: DeviceId) -> (count: usize)
        ensures
            self.devices@.contains_key(device_id.0) ==> count <= fragment_total(
                self.devices@[device_id.0].lba_runs@,
            ),
            !self.devices@.contains_key(device_id.0) ==> count == 0,
    {
        let device = match self.devices.get(device_id.raw()) {
            Some(device) => device,
            None => return 0,
        };
        let mut payloads: Vec<Arc<Vec<u8>>> = Vec::new();
        let mut i: usize = 0;
        assert(device.lba_runs@.take(0) =~= Seq::<BlockJournalOverlayEntry>::empty());
        while i < device.lba_runs.len()
            invariant
                i <= device.lba_runs@.len(),
                payloads@.len() <= fragment_total(device.lba_runs@.take(i as int)) || fragment_total(
                    device.lba_runs@.take(i as int),
                ) == usize::MAX,
            decreases device.lba_runs@.len() - i,
        {
            assert(device.lba_runs@.take(i + 1).drop_last() =~= device.lba_runs@.take(i as int));
            match &device.lba_runs[i].source {
                BlockJournalOverlaySource::Bytes { bytes, .. } => {
                    push_payload(&mut payloads, bytes);
                },
                BlockJournalOverlaySource::BytesFragments { fragments, .. } => {
                    let ghost start = payloads@.len();
                    let mut k: usize = 0;
                    while k < fragments.len()
                        invariant
                            k <= fragments@.len(),
                            payloads@.len() <= start + k,
                        decreases fragments@.len() - k,
                    {
                        push_payload(&mut payloads, &fragments[k].bytes);
                        k = k + 1;
                    }
                },
                _ => {},
            }
            i = i + 1;
        }
        assert(device.lba_runs@.take(device.lba_runs@.len() as int) =~= device.lba_runs@);
        let count: usize = payloads.len();
        count
    }
}

/// The parts of inline payloads that the ranges read from, counted up to the
/// largest size.
pub open spec fn fragment_total(runs: Seq<BlockJournalOverlayEntry>) -> int
    decreases runs.len(),
{
    if runs.len() == 0 {
        0
    } else {
        let parts = match runs.last().source {
            BlockJournalOverlaySource::Bytes { .. } => 1int,
            BlockJournalOverlaySource::BytesFragments { fragments, .. } => fragments@.len() as int,
            _ => 0int,
        };
        let sum = fragment_total(runs.drop_last()) + parts;
        if sum > usize::MAX {
            usize::MAX as int
        } else {
            sum
        }
    }
}

/// Adds a payload that is not in the list yet.
fn push_payload(payloads: &mut Vec<Arc<Vec<u8>>>, bytes: &Arc<Vec<u8>>)
    ensures
        final(payloads)@.len() <= old(payloads)@.len() + 1,
{
    let mut i: usize = 0;
    while i < payloads.len()
        invariant
            i <= payloads@.len(),
            payloads@ == old(payloads)@,
        decreases payloads@.len() - i,
    {
        if shares_allocation(&payloads[i], bytes) {
            return;
        }
        i = i + 1;
    }
    payloads.push(Arc::clone(bytes));
}

} // verus!
