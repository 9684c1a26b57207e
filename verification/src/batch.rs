//! Collapsing the writes of a batch: later writes win, neighbours are joined.
use vstd::prelude::*;

use crate::block_api::{BlockBatchCommit, BlockBatchWrite, ByteRange, DeviceSpec, PayloadIntegrity};
use crate::direct_io::joined;
use crate::error::StorageError;
use crate::native_api::FileBatchWrite;

verus! {

/// The most bytes that one block batch commits.
pub const DEFAULT_BLOCK_BATCH_MAX_BYTES: u64 = 67_108_864;

/// Bytes to be written at one place.
#[derive(Clone, Debug, PartialEq, Eq)]
pub struct PayloadRun {
    pub offset: u64,
    pub bytes: Vec<u8>,
    pub payload_integrity: PayloadIntegrity,
}

/// One byte to be written and the checksum policy it is written under.
pub struct PayloadByte {
    pub value: u8,
    pub payload_integrity: PayloadIntegrity,
}

impl PayloadRun {
    pub open spec fn end(self) -> int {
        self.offset + self.bytes@.len()
    }

    pub open spec fn contains(self, place: int) -> bool {
        self.offset <= place < self.end()
    }

    pub open spec fn byte_at(self, place: int) -> PayloadByte {
        PayloadByte {
            value: self.bytes@[place - self.offset],
            payload_integrity: self.payload_integrity,
        }
    }
}

/// The byte that the last run at a place has there.
pub open spec fn payload_at(runs: Seq<PayloadRun>, place: int) -> Option<PayloadByte>
    decreases runs.len(),
{
    if runs.len() == 0 {
        None
    } else if runs.last().contains(place) {
        Some(runs.last().byte_at(place))
    } else {
        payload_at(runs.drop_last(), place)
    }
}

/// Whether a place is a multiple of `unit`.
pub open spec fn on_unit(place: int, unit: u64) -> bool {
    place % unit as int == 0
}

/// Whether the runs ascend, are apart from each other, not empty and start and
/// end on multiples of `unit`.
pub open spec fn payload_wf(runs: Seq<PayloadRun>, unit: u64) -> bool {
    &&& unit > 0
    &&& forall|i: int|
        0 <= i < runs.len() ==> (#[trigger] runs[i]).bytes@.len() > 0 && runs[i].end() <= u64::MAX
            && on_unit(runs[i].offset as int, unit) && on_unit(runs[i].end(), unit)
    &&& forall|i: int, j: int|
        0 <= i < j < runs.len() ==> (#[trigger] runs[i]).end() <= (#[trigger] runs[j]).offset
}

/// Whether no two neighbours touch and are written under one policy.
pub open spec fn runs_joined(runs: Seq<PayloadRun>) -> bool {
    forall|i: int, j: int|
        0 <= i < j < runs.len() && j == i + 1 ==> (#[trigger] runs[i]).end() < (
        #[trigger] runs[j]).offset || runs[i].payload_integrity != runs[j].payload_integrity
}

proof fn lemma_payload_push(runs: Seq<PayloadRun>, run: PayloadRun, place: int)
    ensures
        payload_at(runs.push(run), place) == if run.contains(place) {
            Some(run.byte_at(place))
        } else {
            payload_at(runs, place)
        },
{
    assert(runs.push(run).drop_last() =~= runs);
}

pub proof fn lemma_payload_run(runs: Seq<PayloadRun>, unit: u64, i: int, place: int)
    requires
        payload_wf(runs, unit),
        0 <= i < runs.len(),
        runs[i].contains(place),
    ensures
        payload_at(runs, place) == Some(runs[i].byte_at(place)),
    decreases runs.len(),
{
    if i < runs.len() - 1 {
        assert(runs[i].end() <= runs[runs.len() - 1].offset);
        assert(payload_wf(runs.drop_last(), unit));
        lemma_payload_run(runs.drop_last(), unit, i, place);
    }
}

fn slice_run(run: &PayloadRun, start: u64, end: u64) -> (part: PayloadRun)
    requires
        run.offset <= start <= end <= run.end(),
        run.end() <= u64::MAX,
    ensures
        part.offset == start,
        part.end() == end,
        part.payload_integrity == run.payload_integrity,
        forall|place: int|
            start <= place < end ==> #[trigger] part.byte_at(place) == run.byte_at(place),
{
    let len: usize = run.bytes.len();
    let bytes = vstd::slice::slice_to_vec(
        vstd::slice::slice_subrange(
            run.bytes.as_slice(),
            (start - run.offset) as usize,
            (end - run.offset) as usize,
        ),
    );
    PayloadRun { offset: start, bytes, payload_integrity: run.payload_integrity }
}

/// Lays a write over the runs that are there.
fn insert_payload_run(
    runs: &Vec<PayloadRun>,
    offset: u64,
    bytes: &Vec<u8>,
    payload_integrity: PayloadIntegrity,
    unit: u64,
) -> (laid: Vec<PayloadRun>)
    requires
        payload_wf(runs@, unit),
        bytes@.len() > 0,
        offset + bytes@.len() <= u64::MAX,
        on_unit(offset as int, unit),
        on_unit(offset + bytes@.len(), unit),
    ensures
        payload_wf(laid@, unit),
        forall|place: int| #[trigger]
            payload_at(laid@, place) == if offset <= place < offset + bytes@.len() {
                Some(PayloadByte { value: bytes@[place - offset], payload_integrity })
            } else {
                payload_at(runs@, place)
            },
{
    let start: u64 = offset;
    let end: u64 = offset + bytes.len() as u64;
    let mut out: Vec<PayloadRun> = Vec::new();
    let mut i: usize = 0;
    assert(runs@.take(0) =~= Seq::<PayloadRun>::empty());
    while i < runs.len()
        invariant
            i <= runs@.len(),
            payload_wf(runs@, unit),
            start == offset,
            on_unit(start as int, unit),
            payload_wf(out@, unit),
            forall|k: int|
                0 <= k < out@.len() ==> (#[trigger] out@[k]).end() <= start && (exists|m: int|
                    0 <= m < i && out@[k].end() <= (#[trigger] runs@[m]).end()),
            forall|place: int| #[trigger]
                payload_at(out@, place) == if place < start {
                    payload_at(runs@.take(i as int), place)
                } else {
                    None
                },
        decreases runs@.len() - i,
    {
        let run = &runs[i];
        let ghost before = out@;
        proof {
            assert(runs@[i as int].end() <= u64::MAX);
            assert(runs@.take(i + 1).drop_last() =~= runs@.take(i as int));
        }
        let run_end: u64 = run.offset + run.bytes.len() as u64;
        if run.offset < start {
            let stop: u64 = if run_end <= start {
                run_end
            } else {
                start
            };
            let piece = slice_run(run, run.offset, stop);
            proof {
                assert forall|k: int| 0 <= k < before.len() implies (#[trigger] before[k]).end()
                    <= piece.offset by {
                    let m = choose|m: int|
                        0 <= m < i && before[k].end() <= (#[trigger] runs@[m]).end();
                    assert(runs@[m].end() <= runs@[i as int].offset);
                }
                assert(piece.end() <= runs@[i as int].end());
            }
            let ghost pushed = piece;
            out.push(piece);
            proof {
                assert forall|place: int| #[trigger] payload_at(out@, place) == (if place < start {
                    payload_at(runs@.take(i + 1), place)
                } else {
                    None
                }) by {
                    lemma_payload_push(before, pushed, place);
                    if pushed.contains(place) {
                        assert(pushed.byte_at(place) == run.byte_at(place));
                    }
                }
                assert forall|k: int| 0 <= k < out@.len() implies (#[trigger] out@[k]).end()
                    <= start && (exists|m: int|
                    0 <= m < i + 1 && out@[k].end() <= (#[trigger] runs@[m]).end()) by {
                    if k < before.len() {
                        let m = choose|m: int|
                            0 <= m < i && before[k].end() <= (#[trigger] runs@[m]).end();
                        assert(out@[k].end() <= runs@[m].end());
                    } else {
                        assert(out@[k].end() <= runs@[i as int].end());
                    }
                }
            }
        }
        i = i + 1;
    }
    assert(runs@.take(runs@.len() as int) =~= runs@);
    let ghost left = out@;
    let added = PayloadRun {
        offset,
        bytes: vstd::slice::slice_to_vec(bytes.as_slice()),
        payload_integrity,
    };
    let ghost laid_over = added;
    out.push(added);
    proof {
        assert forall|place: int| #[trigger] payload_at(out@, place) == (if place < start {
            payload_at(runs@, place)
        } else if place < end {
            Some(PayloadByte { value: bytes@[place - offset], payload_integrity })
        } else {
            None
        }) by {
            lemma_payload_push(left, laid_over, place);
        }
    }
    let mut k: usize = 0;
    assert(runs@.take(0) =~= Seq::<PayloadRun>::empty());
    while k < runs.len()
        invariant
            k <= runs@.len(),
            payload_wf(runs@, unit),
            start == offset,
            end == offset + bytes@.len(),
            start < end,
            on_unit(end as int, unit),
            payload_wf(out@, unit),
            forall|j: int|
                0 <= j < out@.len() ==> (#[trigger] out@[j]).end() <= end || (exists|m: int|
                    0 <= m < k && out@[j].end() <= (#[trigger] runs@[m]).end()),
            forall|place: int| #[trigger]
                payload_at(out@, place) == if place < start {
                    payload_at(runs@, place)
                } else if place < end {
                    Some(PayloadByte { value: bytes@[place - offset], payload_integrity })
                } else {
                    payload_at(runs@.take(k as int), place)
                },
        decreases runs@.len() - k,
    {
        let run = &runs[k];
        let ghost before = out@;
        proof {
            assert(runs@[k as int].end() <= u64::MAX);
            assert(runs@.take(k + 1).drop_last() =~= runs@.take(k as int));
        }
        let run_end: u64 = run.offset + run.bytes.len() as u64;
        if run_end > end {
            let from: u64 = if run.offset >= end {
                run.offset
            } else {
                end
            };
            let piece = slice_run(run, from, run_end);
            proof {
                assert forall|j: int| 0 <= j < before.len() implies (#[trigger] before[j]).end()
                    <= piece.offset by {
                    if before[j].end() > end {
                        let m = choose|m: int|
                            0 <= m < k && before[j].end() <= (#[trigger] runs@[m]).end();
                        assert(runs@[m].end() <= runs@[k as int].offset);
                    }
                }
                assert(piece.end() <= runs@[k as int].end());
            }
            let ghost pushed = piece;
            out.push(piece);
            proof {
                assert forall|place: int| #[trigger] payload_at(out@, place) == (if place < start {
                    payload_at(runs@, place)
                } else if place < end {
                    Some(PayloadByte { value: bytes@[place - offset], payload_integrity })
                } else {
                    payload_at(runs@.take(k + 1), place)
                }) by {
                    lemma_payload_push(before, pushed, place);
                    if pushed.contains(place) {
                        assert(pushed.byte_at(place) == run.byte_at(place));
                    }
                }
                assert forall|j: int| 0 <= j < out@.len() implies (#[trigger] out@[j]).end() <= end
                    || (exists|m: int|
                    0 <= m < k + 1 && out@[j].end() <= (#[trigger] runs@[m]).end()) by {
                    if j < before.len() {
                        if before[j].end() > end {
                            let m = choose|m: int|
                                0 <= m < k && before[j].end() <= (#[trigger] runs@[m]).end();
                            assert(out@[j].end() <= runs@[m].end());
                        }
                    } else {
                        assert(out@[j].end() <= runs@[k as int].end());
                    }
                }
            }
        }
        k = k + 1;
    }
    assert(runs@.take(runs@.len() as int) =~= runs@);
    out
}

/// Joins runs that touch and are written under one policy.
fn join_payload_runs(runs: &Vec<PayloadRun>, unit: u64) -> (joined: Vec<PayloadRun>)
    requires
        payload_wf(runs@, unit),
    ensures
        payload_wf(joined@, unit),
        forall|place: int| #[trigger] payload_at(joined@, place) == payload_at(runs@, place),
        runs@.len() > 0 ==> joined@.len() > 0,
        runs_joined(joined@),
{
    let mut out: Vec<PayloadRun> = Vec::new();
    let mut i: usize = 0;
    assert(runs@.take(0) =~= Seq::<PayloadRun>::empty());
    while i < runs.len()
        invariant
            i <= runs@.len(),
            payload_wf(runs@, unit),
            payload_wf(out@, unit),
            i > 0 ==> out@.len() > 0 && out@.last().end() == runs@[i - 1].end(),
            i == 0 ==> out@.len() == 0,
            forall|place: int| #[trigger]
                payload_at(out@, place) == payload_at(runs@.take(i as int), place),
            forall|k: int, j: int|
                0 <= k < j < out@.len() && j == k + 1 ==> (#[trigger] out@[k]).end() < (
                #[trigger] out@[j]).offset || out@[k].payload_integrity
                    != out@[j].payload_integrity,
        decreases runs@.len() - i,
    {
        let run = &runs[i];
        let ghost before = out@;
        proof {
            assert(runs@[i as int].end() <= u64::MAX);
            assert(runs@.take(i + 1).drop_last() =~= runs@.take(i as int));
            if i > 0 {
                assert(runs@[i - 1].end() <= runs@[i as int].offset);
            }
        }
        let run_end: u64 = run.offset + run.bytes.len() as u64;
        match out.pop() {
            Some(last) => {
                let mut last = last;
                let ghost shorter = out@;
                assert(shorter =~= before.drop_last());
                assert(before[before.len() - 1] == last);
                let last_end: u64 = last.offset + last.bytes.len() as u64;
                if last_end == run.offset && last.payload_integrity == run.payload_integrity {
                    let ghost left = last;
                    last.bytes.extend_from_slice(run.bytes.as_slice());
                    assert(last.bytes@ =~= left.bytes@ + run.bytes@);
                    let ghost joined = last;
                    out.push(last);
                    proof {
                        assert forall|place: int| #[trigger] payload_at(out@, place) == payload_at(
                            runs@.take(i + 1),
                            place,
                        ) by {
                            lemma_payload_push(shorter, joined, place);
                            assert(payload_at(before, place) == payload_at(
                                runs@.take(i as int),
                                place,
                            ));
                        }
                        assert forall|k: int, j: int| 0 <= k < j < out@.len() && j == k
                            + 1 implies (#[trigger] out@[k]).end() < (#[trigger] out@[j]).offset
                            || out@[k].payload_integrity != out@[j].payload_integrity by {
                            assert(out@[k] == before[k]);
                            assert(before[j].offset == out@[j].offset);
                        }
                    }
                } else {
                    out.push(last);
                    assert(out@ =~= before);
                    let copy = slice_run(run, run.offset, run_end);
                    let ghost pushed = copy;
                    out.push(copy);
                    proof {
                        assert forall|place: int| #[trigger] payload_at(out@, place) == payload_at(
                            runs@.take(i + 1),
                            place,
                        ) by {
                            lemma_payload_push(before, pushed, place);
                            if pushed.contains(place) {
                                assert(pushed.byte_at(place) == run.byte_at(place));
                            }
                        }
                    }
                }
            },
            None => {
                let copy = slice_run(run, run.offset, run_end);
                let ghost pushed = copy;
                out.push(copy);
                proof {
                    assert forall|place: int| #[trigger] payload_at(out@, place) == payload_at(
                        runs@.take(i + 1),
                        place,
                    ) by {
                        lemma_payload_push(before, pushed, place);
                        if pushed.contains(place) {
                            assert(pushed.byte_at(place) == run.byte_at(place));
                        }
                    }
                }
            },
        }
        i = i + 1;
    }
    assert(runs@.take(runs@.len() as int) =~= runs@);
    out
}

/// The byte that a block batch writes at a place: its last write there wins.
pub open spec fn batch_at(writes: Seq<BlockBatchWrite>, place: int) -> Option<PayloadByte>
    decreases writes.len(),
{
    if writes.len() == 0 {
        None
    } else {
        let last = writes.last();
        if last.offset <= place < last.offset + last.bytes@.len() {
            Some(
                PayloadByte {
                    value: last.bytes@[place - last.offset],
                    payload_integrity: last.payload_integrity,
                },
            )
        } else {
            batch_at(writes.drop_last(), place)
        }
    }
}

/// The bytes of all runs together.
pub open spec fn total_len(runs: Seq<PayloadRun>) -> nat
    decreases runs.len(),
{
    if runs.len() == 0 {
        0
    } else {
        total_len(runs.drop_last()) + runs.last().bytes@.len()
    }
}

/// Whether the writes may be committed together on a device, but for the limit
/// on their bytes.
pub open spec fn batch_valid(writes: Seq<BlockBatchWrite>, spec: DeviceSpec) -> bool {
    &&& writes.len() > 0
    &&& forall|i: int|
        0 <= i < writes.len() ==> (#[trigger] writes[i]).bytes@.len() > 0 && (ByteRange {
            offset: writes[i].offset,
            len: writes[i].bytes@.len() as u64,
        }).fits_device(spec)
}

/// The writes of a batch as runs that are apart from each other: every byte as
/// the last write there left it.
pub fn collapse_block_batch_writes(
    writes: &[BlockBatchWrite],
    spec: &DeviceSpec,
    max_bytes: u64,
) -> (result: Result<Vec<PayloadRun>, StorageError>)
    ensures
        result is Ok ==> batch_valid(writes@, *spec),
        result matches Ok(runs) ==> payload_wf(runs@, spec.block_size as u64) && runs@.len() > 0
            && runs_joined(runs@) && total_len(runs@) <= max_bytes && forall|place: int| #[trigger]
            payload_at(runs@, place) == batch_at(writes@, place),
        result matches Ok(runs) ==> forall|i: int|
            0 <= i < runs@.len() ==> (#[trigger] runs@[i]).end() <= spec.logical_blocks
                * spec.block_size,
        result is Ok <==> batch_valid(writes@, *spec) && batch_places(writes@).len() <= max_bytes,
        result matches Err(error) ==> error is InvalidArgument,
{
    if writes.len() == 0 {
        return Err(StorageError::invalid_argument("block batch has no writes"));
    }
    let unit: u64 = spec.block_size as u64;
    let mut runs: Vec<PayloadRun> = Vec::new();
    let mut i: usize = 0;
    assert(writes@.take(0) =~= Seq::<BlockBatchWrite>::empty());
    while i < writes.len()
        invariant
            i <= writes@.len(),
            unit == spec.block_size,
            unit > 0 ==> payload_wf(runs@, unit),
            i > 0 ==> unit > 0 && runs@.len() > 0,
            unit == 0 ==> runs@.len() == 0,
            forall|k: int|
                0 <= k < i ==> (#[trigger] writes@[k]).bytes@.len() > 0 && (ByteRange {
                    offset: writes@[k].offset,
                    len: writes@[k].bytes@.len() as u64,
                }).fits_device(*spec),
            forall|place: int| #[trigger]
                payload_at(runs@, place) == batch_at(writes@.take(i as int), place),
            forall|place: int| #[trigger]
                payload_at(runs@, place) is Some ==> 0 <= place < spec.logical_blocks
                    * spec.block_size,
        decreases writes@.len() - i,
    {
        let write = &writes[i];
        proof {
            assert(writes@.take(i + 1).drop_last() =~= writes@.take(i as int));
        }
        if write.bytes.len() == 0 {
            assert(writes@[i as int].bytes@.len() == 0);
            return Err(StorageError::invalid_argument("block batch write must not be empty"));
        }
        let range = ByteRange { offset: write.offset, len: write.bytes.len() as u64 };
        match range.validate_for_device(spec) {
            Ok(()) => {},
            Err(error) => {
                assert(!(ByteRange {
                    offset: writes@[i as int].offset,
                    len: writes@[i as int].bytes@.len() as u64,
                }).fits_device(*spec));
                return Err(error);
            },
        }
        let ghost before = runs@;
        proof {
            let (o, l, u) = (range.offset as int, range.len as int, unit as int);
            vstd::arithmetic::div_mod::lemma_mod_adds(o, l, u);
            vstd::arithmetic::div_mod::lemma_add_mod_noop(o, l, u);
        }
        runs = insert_payload_run(&runs, write.offset, &write.bytes, write.payload_integrity, unit);
        proof {
            assert(runs@.len() > 0) by {
                assert(payload_at(runs@, write.offset as int) is Some);
            }
            assert forall|place: int| #[trigger] payload_at(runs@, place) is Some implies 0 <= place
                < spec.logical_blocks * spec.block_size by {
                if !(write.offset <= place < write.offset + write.bytes@.len()) {
                    assert(payload_at(before, place) is Some);
                }
            }
            assert forall|place: int| #[trigger] payload_at(runs@, place) == batch_at(
                writes@.take(i + 1),
                place,
            ) by {
                assert(payload_at(before, place) == batch_at(writes@.take(i as int), place));
            }
        }
        i = i + 1;
    }
    assert(writes@.take(writes@.len() as int) =~= writes@);
    let joined = join_payload_runs(&runs, unit);
    proof {
        lemma_batch_counted(writes@, joined@, unit);
    }
    let mut total: u64 = 0;
    let mut k: usize = 0;
    assert(joined@.take(0) =~= Seq::<PayloadRun>::empty());
    while k < joined.len()
        invariant
            k <= joined@.len(),
            total == total_len(joined@.take(k as int)),
            total <= max_bytes,
            unit == spec.block_size,
            payload_wf(joined@, unit),
            batch_places(writes@).len() == total_len(joined@),
        decreases joined@.len() - k,
    {
        let ghost len = joined@[k as int].bytes@.len();
        assert(joined@.take(k + 1).drop_last() =~= joined@.take(k as int));
        total = match total.checked_add(joined[k].bytes.len() as u64) {
            Some(sum) => sum,
            None => {
                proof {
                    lemma_total_len_take(joined@, k + 1);
                }
                return Err(StorageError::invalid_argument("block batch is too large"));
            },
        };
        if total > max_bytes {
            proof {
                lemma_total_len_take(joined@, k + 1);
            }
            return Err(StorageError::invalid_argument("block batch is too large"));
        }
        k = k + 1;
    }
    assert(joined@.take(joined@.len() as int) =~= joined@);
    proof {
        assert forall|m: int| 0 <= m < joined@.len() implies (#[trigger] joined@[m]).end()
            <= spec.logical_blocks * spec.block_size by {
            let last = joined@[m].end() - 1;
            lemma_payload_run(joined@, unit, m, last);
            assert(payload_at(runs@, last) is Some);
        }
    }
    Ok(joined)
}

proof fn lemma_total_len_take(runs: Seq<PayloadRun>, count: int)
    requires
        0 <= count <= runs.len(),
    ensures
        total_len(runs.take(count)) <= total_len(runs),
    decreases runs.len() - count,
{
    if count < runs.len() {
        lemma_total_len_take(runs, count + 1);
        assert(runs.take(count + 1).drop_last() =~= runs.take(count));
    } else {
        assert(runs.take(count) =~= runs);
    }
}

/// The byte that a file batch writes at a place: its last write there wins.
pub open spec fn file_batch_at(writes: Seq<FileBatchWrite>, place: int) -> Option<u8>
    decreases writes.len(),
{
    if writes.len() == 0 {
        None
    } else {
        let last = writes.last();
        if last.offset <= place < last.offset + last.bytes@.len() {
            Some(last.bytes@[place - last.offset])
        } else {
            file_batch_at(writes.drop_last(), place)
        }
    }
}

/// Whether all writes of a file batch end within reach.
pub open spec fn file_batch_fits(writes: Seq<FileBatchWrite>) -> bool {
    forall|i: int|
        0 <= i < writes.len() ==> (#[trigger] writes[i]).offset + writes[i].bytes@.len() <= u64::MAX
}

/// The writes of a file batch as runs that are apart from each other.
pub fn collapse_native_file_batch_writes(
    writes: &[FileBatchWrite],
    payload_integrity: PayloadIntegrity,
) -> (result: Result<Vec<PayloadRun>, StorageError>)
    ensures
        result is Ok <==> file_batch_fits(writes@),
        result matches Ok(runs) ==> payload_wf(runs@, 1) && runs_joined(runs@) && forall|
            place: int,
        | #[trigger]
            payload_at(runs@, place) == match file_batch_at(writes@, place) {
                Some(value) => Some(PayloadByte { value, payload_integrity }),
                None => None,
            },
        result matches Err(error) ==> error is InvalidArgument,
{
    let mut runs: Vec<PayloadRun> = Vec::new();
    let mut i: usize = 0;
    assert(writes@.take(0) =~= Seq::<FileBatchWrite>::empty());
    while i < writes.len()
        invariant
            i <= writes@.len(),
            payload_wf(runs@, 1),
            forall|k: int|
                0 <= k < i ==> (#[trigger] writes@[k]).offset + writes@[k].bytes@.len() <= u64::MAX,
            forall|place: int| #[trigger]
                payload_at(runs@, place) == match file_batch_at(writes@.take(i as int), place) {
                    Some(value) => Some(PayloadByte { value, payload_integrity }),
                    None => None,
                },
        decreases writes@.len() - i,
    {
        let write = &writes[i];
        assert(writes@.take(i + 1).drop_last() =~= writes@.take(i as int));
        if write.offset.checked_add(write.bytes.len() as u64).is_none() {
            assert(writes@[i as int].offset + writes@[i as int].bytes@.len() > u64::MAX);
            return Err(StorageError::invalid_argument("native file write range overflows"));
        }
        if write.bytes.len() > 0 {
            let ghost before = runs@;
            runs = insert_payload_run(&runs, write.offset, &write.bytes, payload_integrity, 1);
            assert forall|place: int| #[trigger] payload_at(runs@, place) == (match file_batch_at(
                writes@.take(i + 1),
                place,
            ) {
                Some(value) => Some(PayloadByte { value, payload_integrity }),
                None => None,
            }) by {
                assert(payload_at(before, place) == (match file_batch_at(
                    writes@.take(i as int),
                    place,
                ) {
                    Some(value) => Some(PayloadByte { value, payload_integrity }),
                    None => None,
                }));
            }
        }
        i = i + 1;
    }
    assert(writes@.take(writes@.len() as int) =~= writes@);
    Ok(join_payload_runs(&runs, 1))
}

/// The places that a batch writes to.
pub open spec fn batch_places(writes: Seq<BlockBatchWrite>) -> Set<int> {
    Set::new(|place: int| batch_at(writes, place) is Some)
}

/// The places where a run of a batch starts: nothing under the same policy is
/// written just before.
pub open spec fn batch_run_starts(writes: Seq<BlockBatchWrite>) -> Set<int> {
    Set::new(|place: int| starts_run(batch_at(writes, place - 1), batch_at(writes, place)))
}

pub open spec fn starts_run(before: Option<PayloadByte>, here: Option<PayloadByte>) -> bool {
    here is Some && !(before is Some && before->0.payload_integrity == here->0.payload_integrity)
}

/// Whether a commit counts the places that its batch wrote to, and the runs that
/// are left of the batch once later writes cover earlier ones and neighbours
/// are joined.
pub open spec fn batch_counted(commit: BlockBatchCommit, writes: Seq<BlockBatchWrite>) -> bool {
    &&& batch_places(writes).finite()
    &&& commit.committed_bytes == batch_places(writes).len()
    &&& commit.committed_bytes > 0
    &&& batch_run_starts(writes).finite()
    &&& commit.collapsed_range_count == batch_run_starts(writes).len()
}

/// A batch that is written under one policy leaves no more runs than it has
/// writes.
pub proof fn law_no_more_runs_than_writes(writes: Seq<BlockBatchWrite>, policy: PayloadIntegrity)
    requires
        forall|i: int| 0 <= i < writes.len() ==> (#[trigger] writes[i]).payload_integrity == policy,
    ensures
        batch_run_starts(writes).finite(),
        batch_run_starts(writes).len() <= writes.len(),
{
    let offsets = writes.map_values(|write: BlockBatchWrite| write.offset as int);
    let starts = batch_run_starts(writes);
    assert forall|place: int| #[trigger] starts.contains(place) implies offsets.to_set().contains(
        place,
    ) by {
        lemma_write_at(writes, place, policy);
        let i = choose|i: int|
            0 <= i < writes.len() && (#[trigger] writes[i]).offset <= place < writes[i].offset
                + writes[i].bytes@.len();
        if writes[i].offset != place {
            assert(writes[i].offset <= place - 1 < writes[i].offset + writes[i].bytes@.len());
            lemma_write_at(writes, place - 1, policy);
        }
        assert(offsets[i] == place);
    }
    offsets.lemma_cardinality_of_set();
    vstd::seq_lib::seq_to_set_is_finite(offsets);
    vstd::set_lib::lemma_len_subset(starts, offsets.to_set());
}

/// Some write holds a place just where the batch has a byte, under the one
/// policy that all are written under.
proof fn lemma_write_at(writes: Seq<BlockBatchWrite>, place: int, policy: PayloadIntegrity)
    requires
        forall|i: int| 0 <= i < writes.len() ==> (#[trigger] writes[i]).payload_integrity == policy,
    ensures
        batch_at(writes, place) is Some <==> exists|i: int|
            0 <= i < writes.len() && (#[trigger] writes[i]).offset <= place < writes[i].offset
                + writes[i].bytes@.len(),
        batch_at(writes, place) matches Some(byte) ==> byte.payload_integrity == policy,
    decreases writes.len(),
{
    if writes.len() > 0 {
        let shorter = writes.drop_last();
        let last = writes.len() - 1;
        assert(writes.last() == writes[last]);
        assert forall|i: int| 0 <= i < shorter.len() implies (
        #[trigger] shorter[i]).payload_integrity == policy by {
            assert(shorter[i] == writes[i]);
        }
        lemma_write_at(shorter, place, policy);
        if exists|i: int|
            0 <= i < shorter.len() && (#[trigger] shorter[i]).offset <= place < shorter[i].offset
                + shorter[i].bytes@.len() {
            let i = choose|i: int|
                0 <= i < shorter.len() && (#[trigger] shorter[i]).offset <= place
                    < shorter[i].offset + shorter[i].bytes@.len();
            assert(writes[i].offset <= place < writes[i].offset + writes[i].bytes@.len());
        }
        if exists|i: int|
            0 <= i < writes.len() && (#[trigger] writes[i]).offset <= place < writes[i].offset
                + writes[i].bytes@.len() {
            let i = choose|i: int|
                0 <= i < writes.len() && (#[trigger] writes[i]).offset <= place
                    < writes[i].offset + writes[i].bytes@.len();
            if i < last {
                assert(shorter[i].offset <= place < shorter[i].offset + shorter[i].bytes@.len());
            }
        }
    }
}

/// The places where runs start that are joined as far as they can be.
pub open spec fn payload_starts(runs: Seq<PayloadRun>) -> Set<int> {
    Set::new(|place: int| starts_run(payload_at(runs, place - 1), payload_at(runs, place)))
}

/// There are as many joined runs as places where one starts.
pub proof fn lemma_payload_starts(runs: Seq<PayloadRun>, unit: u64)
    requires
        payload_wf(runs, unit),
        runs_joined(runs),
    ensures
        payload_starts(runs).finite(),
        payload_starts(runs).len() == runs.len(),
    decreases runs.len(),
{
    if runs.len() == 0 {
        assert(payload_starts(runs) =~= Set::<int>::empty());
    } else {
        let shorter = runs.drop_last();
        let last = runs.last();
        let end = runs.len() - 1;
        assert(runs[end] == last);
        assert(shorter.push(last) =~= runs);
        assert(payload_wf(shorter, unit)) by {
            assert forall|i: int| 0 <= i < shorter.len() implies (
            #[trigger] shorter[i]).bytes@.len() > 0 && shorter[i].end() <= u64::MAX && on_unit(
                shorter[i].offset as int,
                unit,
            ) && on_unit(shorter[i].end(), unit) by {
                assert(shorter[i] == runs[i]);
            }
            assert forall|i: int, j: int| 0 <= i < j < shorter.len() implies (
            #[trigger] shorter[i]).end() <= (#[trigger] shorter[j]).offset by {
                assert(runs[i].end() <= runs[j].offset);
            }
        }
        assert(runs_joined(shorter)) by {
            assert forall|i: int, j: int| 0 <= i < j < shorter.len() && j == i + 1 implies (
            #[trigger] shorter[i]).end() < (#[trigger] shorter[j]).offset
                || shorter[i].payload_integrity != shorter[j].payload_integrity by {
                assert(runs[i] == shorter[i] && runs[j] == shorter[j]);
            }
        }
        lemma_payload_starts(shorter, unit);
        let start = last.offset as int;
        assert forall|place: int| payload_at(shorter, place) is Some implies place < start by {
            crate::block_chunks::lemma_payload_has_run(shorter, place);
            let i = choose|i: int|
                0 <= i < shorter.len() && (#[trigger] shorter[i]).contains(place);
            assert(runs[i].end() <= runs[end].offset);
        }
        assert forall|place: int| payload_starts(runs).contains(place) <==> payload_starts(
            shorter,
        ).insert(start).contains(place) by {
            lemma_payload_push(shorter, last, place);
            lemma_payload_push(shorter, last, place - 1);
            if place == start && payload_at(shorter, place - 1) is Some {
                crate::block_chunks::lemma_payload_has_run(shorter, place - 1);
                let i = choose|i: int|
                    0 <= i < shorter.len() && (#[trigger] shorter[i]).contains(place - 1);
                if i < end - 1 {
                    assert(runs[i].end() <= runs[end - 1].offset);
                    assert(runs[end - 1].end() <= runs[end].offset);
                }
                assert(i == end - 1);
                lemma_payload_run(shorter, unit, i, place - 1);
                assert(runs[end - 1].end() < runs[end].offset || runs[end - 1].payload_integrity
                    != runs[end].payload_integrity);
            }
        }
        assert(payload_starts(runs) =~= payload_starts(shorter).insert(start));
        assert(!payload_starts(shorter).contains(start));
    }
}

/// The places that runs hold.
pub open spec fn run_places(runs: Seq<PayloadRun>) -> Set<int> {
    Set::new(|place: int| payload_at(runs, place) is Some)
}

pub proof fn lemma_run_places(runs: Seq<PayloadRun>, unit: u64)
    requires
        payload_wf(runs, unit),
    ensures
        run_places(runs).finite(),
        run_places(runs).len() == total_len(runs),
    decreases runs.len(),
{
    if runs.len() == 0 {
        assert(run_places(runs) =~= Set::<int>::empty());
    } else {
        let shorter = runs.drop_last();
        let last = runs.last();
        assert(payload_wf(shorter, unit)) by {
            assert forall|i: int| 0 <= i < shorter.len() implies (
            #[trigger] shorter[i]).bytes@.len() > 0 && shorter[i].end() <= u64::MAX && on_unit(
                shorter[i].offset as int,
                unit,
            ) && on_unit(shorter[i].end(), unit) by {
                assert(shorter[i] == runs[i]);
            }
            assert forall|i: int, j: int| 0 <= i < j < shorter.len() implies (
            #[trigger] shorter[i]).end() <= (#[trigger] shorter[j]).offset by {
                assert(runs[i].end() <= runs[j].offset);
            }
        }
        lemma_run_places(shorter, unit);
        let added = vstd::set_lib::set_int_range(last.offset as int, last.end());
        vstd::set_lib::lemma_int_range(last.offset as int, last.end());
        assert forall|place: int| payload_at(shorter, place) is Some implies !added.contains(
            place,
        ) by {
            crate::block_chunks::lemma_payload_has_run(shorter, place);
            let i = choose|i: int|
                0 <= i < shorter.len() && (#[trigger] shorter[i]).contains(place);
            assert(runs[i].end() <= runs[runs.len() - 1].offset);
        }
        assert(run_places(runs) =~= run_places(shorter).union(added)) by {
            assert(shorter.push(last) =~= runs);
            assert forall|place: int| run_places(runs).contains(place) <==> run_places(
                shorter,
            ).union(added).contains(place) by {
                lemma_payload_push(shorter, last, place);
            }
        }
        vstd::set_lib::lemma_set_disjoint_lens(run_places(shorter), added);
    }
}

/// Joined runs that hold what a batch writes are as long as the batch has
/// places, and as many as it has runs.
pub proof fn lemma_batch_counted(writes: Seq<BlockBatchWrite>, runs: Seq<PayloadRun>, unit: u64)
    requires
        payload_wf(runs, unit),
        runs_joined(runs),
        runs.len() > 0,
        forall|place: int| #[trigger] payload_at(runs, place) == batch_at(writes, place),
    ensures
        batch_places(writes).finite(),
        batch_places(writes).len() == total_len(runs),
        total_len(runs) > 0,
        batch_run_starts(writes).finite(),
        batch_run_starts(writes).len() == runs.len(),
{
    lemma_run_places(runs, unit);
    lemma_payload_starts(runs, unit);
    assert(batch_places(writes) =~= run_places(runs)) by {
        assert forall|place: int| batch_places(writes).contains(place) <==> run_places(
            runs,
        ).contains(place) by {
            assert(payload_at(runs, place) == batch_at(writes, place));
        }
    }
    assert(batch_run_starts(writes) =~= payload_starts(runs)) by {
        assert forall|place: int| batch_run_starts(writes).contains(place) <==> payload_starts(
            runs,
        ).contains(place) by {
            assert(payload_at(runs, place) == batch_at(writes, place));
            assert(payload_at(runs, place - 1) == batch_at(writes, place - 1));
        }
    }
    assert(runs.last() == runs[runs.len() - 1]);
}

/// Where a file batch ends: behind the last byte of its writes.
pub open spec fn file_batch_end(writes: Seq<FileBatchWrite>) -> int
    decreases writes.len(),
{
    if writes.len() == 0 {
        0
    } else {
        let before = file_batch_end(writes.drop_last());
        let last = writes.last();
        let end = last.offset + last.bytes@.len();
        if last.bytes@.len() > 0 && end > before {
            end
        } else {
            before
        }
    }
}

/// A file batch has its last byte just before its end.
pub proof fn lemma_file_batch_end(writes: Seq<FileBatchWrite>)
    ensures
        file_batch_end(writes) >= 0,
        file_batch_end(writes) > 0 ==> file_batch_at(writes, file_batch_end(writes) - 1) is Some,
        forall|place: int| #[trigger]
            file_batch_at(writes, place) is Some ==> 0 <= place < file_batch_end(writes),
    decreases writes.len(),
{
    if writes.len() > 0 {
        let shorter = writes.drop_last();
        let last = writes.last();
        lemma_file_batch_end(shorter);
        assert forall|place: int| #[trigger] file_batch_at(writes, place) is Some implies 0 <= place
            < file_batch_end(writes) by {
            if !(last.offset <= place < last.offset + last.bytes@.len()) {
                assert(file_batch_at(shorter, place) is Some);
            }
        }
        let end = file_batch_end(shorter);
        if file_batch_end(writes) == end && end > 0 {
            assert(file_batch_at(shorter, end - 1) is Some);
        }
    }
}

} // verus!
