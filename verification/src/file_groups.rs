//! Grouping the writes of a file batch into segments of whole blocks.
use vstd::prelude::*;

use crate::batch::{lemma_payload_run, payload_at, payload_wf, PayloadRun};
use crate::block_api::ByteRange;
use crate::error::StorageError;

verus! {

/// The writes that one segment takes: those from `first_write` to before
/// `last_write`, in the bytes from `start` to before `end`.
#[derive(Clone, Copy, PartialEq, Eq, Structural, Debug)]
pub struct NativeSegmentGroup {
    pub start: u64,
    pub end: u64,
    pub first_write: usize,
    pub last_write: usize,
}

impl NativeSegmentGroup {
    pub open spec fn contains(self, byte: int) -> bool {
        self.start <= byte < self.end
    }

    /// Whether the group is made of whole blocks and holds its writes.
    pub open spec fn wf(self, runs: Seq<PayloadRun>, block_size: u64) -> bool {
        &&& self.start < self.end
        &&& self.start as int % block_size as int == 0
        &&& self.end as int % block_size as int == 0
        &&& self.first_write < self.last_write <= runs.len()
        &&& forall|k: int|
            self.first_write <= k < self.last_write ==> self.start <= (
            #[trigger] runs[k]).offset && runs[k].end() <= self.end
        &&& exists|k: int|
            self.first_write <= k < self.last_write && (#[trigger] runs[k]).end() > self.end
                - block_size
    }

    /// A run that reaches into the group's last block.
    pub proof fn end_run(self, runs: Seq<PayloadRun>, block_size: u64) -> (k: int)
        requires
            self.wf(runs, block_size),
        ensures
            self.first_write <= k < self.last_write,
            runs[k].end() > self.end - block_size,
    {
        choose|k: int|
            self.first_write <= k < self.last_write && (#[trigger] runs[k]).end() > self.end
                - block_size
    }
}

/// Whether groups take the first `count` runs, each once, without overlap.
pub open spec fn groups_take(
    groups: Seq<NativeSegmentGroup>,
    runs: Seq<PayloadRun>,
    block_size: u64,
    count: int,
) -> bool {
    &&& forall|i: int| 0 <= i < groups.len() ==> (#[trigger] groups[i]).wf(runs, block_size)
    &&& forall|i: int, j: int|
        0 <= i < j < groups.len() ==> (#[trigger] groups[i]).end < (#[trigger] groups[j]).start
            && groups[i].last_write <= groups[j].first_write
    &&& groups.len() > 0 ==> groups[0].first_write == 0 && groups.last().last_write == count
    &&& groups.len() == 0 ==> count == 0
    &&& forall|k: int|
        0 <= k < count ==> exists|i: int|
            0 <= i < groups.len() && (#[trigger] groups[i]).first_write <= k
                < groups[i].last_write && groups[i].start <= (#[trigger] runs[k]).offset
                && runs[k].end() <= groups[i].end
}

pub proof fn lemma_round(value: int, block_size: int)
    requires
        block_size > 0,
        value >= 0,
    ensures
        ((value / block_size) * block_size) % block_size == 0,
        (value / block_size) * block_size <= value < (value / block_size) * block_size
            + block_size,
{
    vstd::arithmetic::div_mod::lemma_fundamental_div_mod(value, block_size);
    vstd::arithmetic::div_mod::lemma_mod_multiples_basic(value / block_size, block_size);
    assert((value / block_size) * block_size == block_size * (value / block_size))
        by (nonlinear_arith);
}

/// Whether the block that a run ends in reaches behind the last byte there can
/// be.
pub open spec fn rounds_past_end(run: PayloadRun, block_size: u64) -> bool {
    &&& run.end() % block_size as int != 0
    &&& (run.end() / block_size as int) * block_size + block_size > u64::MAX
}

/// The groups of a collapsed batch. Writes whose blocks meet share a segment.
#[verifier::rlimit(60)]
pub fn native_batch_segment_groups(runs: &Vec<PayloadRun>, block_size: u64) -> (result: Result<
    Vec<NativeSegmentGroup>,
    StorageError,
>)
    requires
        block_size > 0,
        payload_wf(runs@, 1),
    ensures
        result matches Ok(groups) ==> groups_take(
            groups@,
            runs@,
            block_size,
            runs@.len() as int,
        ),
        result is Err ==> exists|k: int|
            0 <= k < runs@.len() && rounds_past_end(#[trigger] runs@[k], block_size),
        result matches Err(error) ==> error is InvalidArgument,
{
    let mut groups: Vec<NativeSegmentGroup> = Vec::new();
    let ghost b = block_size as int;
    let mut k: usize = 0;
    while k < runs.len()
        invariant
            k <= runs@.len(),
            block_size > 0,
            b == block_size as int,
            payload_wf(runs@, 1),
            groups_take(groups@, runs@, block_size, k as int),
        decreases runs@.len() - k,
    {
        let run = &runs[k];
        let ghost before = groups@;
        assert(runs@[k as int].end() <= u64::MAX);
        let len: u64 = run.bytes.len() as u64;
        let run_end: u64 = run.offset + len;
        proof {
            lemma_round(run.offset as int, b);
            lemma_round(run_end as int, b);
        }
        let start: u64 = (run.offset / block_size) * block_size;
        let floor: u64 = (run_end / block_size) * block_size;
        let end: u64 = if floor == run_end {
            run_end
        } else {
            if floor > u64::MAX - block_size {
                assert(rounds_past_end(runs@[k as int], block_size)) by {
                    if run_end as int % b == 0 {
                        vstd::arithmetic::div_mod::lemma_fundamental_div_mod(run_end as int, b);
                        assert((run_end as int / b) * b == b * (run_end as int / b))
                            by (nonlinear_arith);
                    }
                }
                return Err(StorageError::invalid_argument("native batch segment end overflows"));
            }
            floor + block_size
        };
        proof {
            if floor != run_end {
                vstd::arithmetic::div_mod::lemma_mod_add_multiples_vanish(floor as int, b);
            }
        }
        let mut merged = false;
        if groups.len() > 0 {
            let last: usize = groups.len() - 1;
            let group = groups[last];
            assert(groups@[last as int].wf(runs@, block_size));
            if start <= group.end {
                let new_end: u64 = if end >= group.end {
                    end
                } else {
                    group.end
                };
                let joined = NativeSegmentGroup {
                    start: group.start,
                    end: new_end,
                    first_write: group.first_write,
                    last_write: k + 1,
                };
                proof {
                    assert(runs@[group.last_write - 1].end() <= runs@[k as int].offset) by {
                        assert(runs@[group.last_write - 1].end() <= runs@[k as int].offset);
                    }
                    assert(group.start <= runs@[group.first_write as int].offset);
                }
                groups.set(last, joined);
                merged = true;
                proof {
                    assert(joined.wf(runs@, block_size)) by {
                        if end >= group.end {
                            assert(runs@[k as int].end() > joined.end - block_size);
                        } else {
                            let m = group.end_run(runs@, block_size);
                            assert(runs@[m].end() > joined.end - block_size);
                        }
                        assert forall|m: int|
                            joined.first_write <= m < joined.last_write implies joined.start <= (
                        #[trigger] runs@[m]).offset && runs@[m].end() <= joined.end by {
                            if m < k {
                                assert(group.start <= runs@[m].offset);
                            } else {
                                assert(runs@[group.first_write as int].end()
                                    <= runs@[k as int].offset);
                            }
                        }
                    }
                    lemma_groups_joined(before, groups@, runs@, block_size, k as int, joined);
                }
            }
        }
        if !merged {
            let group = NativeSegmentGroup { start, end, first_write: k, last_write: k + 1 };
            groups.push(group);
            proof {
                assert(runs@[k as int].end() > group.end - block_size);
                assert(group.wf(runs@, block_size));
                lemma_groups_pushed(before, groups@, runs@, block_size, k as int, group);
            }
        }
        k = k + 1;
    }
    Ok(groups)
}

proof fn lemma_groups_pushed(
    before: Seq<NativeSegmentGroup>,
    after: Seq<NativeSegmentGroup>,
    runs: Seq<PayloadRun>,
    block_size: u64,
    count: int,
    group: NativeSegmentGroup,
)
    requires
        0 <= count < runs.len(),
        groups_take(before, runs, block_size, count),
        after == before.push(group),
        group.wf(runs, block_size),
        group.first_write == count,
        group.last_write == count + 1,
        before.len() > 0 ==> before.last().end < group.start,
    ensures
        groups_take(after, runs, block_size, count + 1),
{
    let n = before.len() as int;
    assert forall|i: int, j: int| 0 <= i < j < after.len() implies (#[trigger] after[i]).end < (
    #[trigger] after[j]).start && after[i].last_write <= after[j].first_write by {
        if j < n {
            assert(after[i] == before[i] && after[j] == before[j]);
        } else {
            assert(after[i] == before[i]);
            if i < n - 1 {
                assert(before[i].end < before[n - 1].start);
                assert(before[n - 1].wf(runs, block_size));
            }
        }
    }
    assert forall|k: int| 0 <= k < count + 1 implies exists|i: int|
        0 <= i < after.len() && (#[trigger] after[i]).first_write <= k < after[i].last_write
            && after[i].start <= (#[trigger] runs[k]).offset && runs[k].end() <= after[i].end by {
        if k < count {
            let i = choose|i: int|
                0 <= i < before.len() && (#[trigger] before[i]).first_write <= k
                    < before[i].last_write && before[i].start <= runs[k].offset && runs[k].end()
                    <= before[i].end;
            assert(after[i] == before[i]);
        } else {
            assert(after[n] == group);
            assert(group.start <= runs[k].offset);
        }
    }
}

#[verifier::rlimit(80)]
#[verifier::spinoff_prover]
proof fn lemma_groups_joined(
    before: Seq<NativeSegmentGroup>,
    after: Seq<NativeSegmentGroup>,
    runs: Seq<PayloadRun>,
    block_size: u64,
    count: int,
    joined: NativeSegmentGroup,
)
    requires
        0 <= count < runs.len(),
        before.len() > 0,
        groups_take(before, runs, block_size, count),
        after == before.update(before.len() - 1, joined),
        joined.wf(runs, block_size),
        joined.start == before.last().start,
        joined.first_write == before.last().first_write,
        joined.last_write == count + 1,
        joined.end >= before.last().end,
    ensures
        groups_take(after, runs, block_size, count + 1),
{
    let n = before.len() - 1;
    assert forall|i: int, j: int| 0 <= i < j < after.len() implies (#[trigger] after[i]).end < (
    #[trigger] after[j]).start && after[i].last_write <= after[j].first_write by {
        assert(after[i] == before[i]);
        assert(before[i].end < before[j].start);
    }
    assert forall|k: int| 0 <= k < count + 1 implies exists|i: int|
        0 <= i < after.len() && (#[trigger] after[i]).first_write <= k < after[i].last_write
            && after[i].start <= (#[trigger] runs[k]).offset && runs[k].end() <= after[i].end by {
        if k < count {
            let i = choose|i: int|
                0 <= i < before.len() && (#[trigger] before[i]).first_write <= k
                    < before[i].last_write && before[i].start <= runs[k].offset && runs[k].end()
                    <= before[i].end;
            if i < n {
                assert(after[i] == before[i]);
            } else {
                assert(after[n] == joined);
            }
        } else {
            assert(after[n] == joined);
            assert(joined.start <= runs[k].offset);
        }
    }
}

/// A byte in a group's range that some run holds is in one of the group's runs.
#[verifier::spinoff_prover]
pub proof fn lemma_group_payload(
    groups: Seq<NativeSegmentGroup>,
    runs: Seq<PayloadRun>,
    block_size: u64,
    g: int,
    byte: int,
)
    requires
        payload_wf(runs, 1),
        groups_take(groups, runs, block_size, runs.len() as int),
        0 <= g < groups.len(),
        groups[g].contains(byte),
        payload_at(runs, byte) is Some,
    ensures
        exists|k: int|
            groups[g].first_write <= k < groups[g].last_write && (#[trigger] runs[k]).contains(
                byte,
            ),
{
    crate::block_chunks::lemma_payload_has_run(runs, byte);
    let k = choose|k: int| 0 <= k < runs.len() && (#[trigger] runs[k]).contains(byte);
    let i = choose|i: int|
        0 <= i < groups.len() && (#[trigger] groups[i]).first_write <= k < groups[i].last_write
            && groups[i].start <= runs[k].offset && runs[k].end() <= groups[i].end;
    lemma_one_group(groups, i, g, byte);
    assert(groups[g].first_write <= k < groups[g].last_write && runs[k].contains(byte));
}

/// Only one group holds a byte.
proof fn lemma_one_group(groups: Seq<NativeSegmentGroup>, i: int, g: int, byte: int)
    requires
        forall|a: int, b: int|
            0 <= a < b < groups.len() ==> (#[trigger] groups[a]).end < (#[trigger] groups[b]).start,
        0 <= i < groups.len(),
        0 <= g < groups.len(),
        groups[i].start <= byte < groups[i].end,
        groups[g].start <= byte < groups[g].end,
    ensures
        i == g,
{
    if i < g {
        assert(groups[i].end < groups[g].start);
    } else if g < i {
        assert(groups[g].end < groups[i].start);
    }
}

/// Whether the runs from `first` to before `last` leave nothing of a range open.
pub fn native_batch_writes_cover_range(
    runs: &Vec<PayloadRun>,
    first: usize,
    last: usize,
    range: ByteRange,
) -> (covered: bool)
    requires
        payload_wf(runs@, 1),
        first <= last <= runs@.len(),
        range.end() <= u64::MAX,
    ensures
        covered <==> forall|byte: int|
            range.contains(byte) ==> #[trigger] run_among(runs@, first as int, last as int, byte),
        covered ==> forall|byte: int|
            range.contains(byte) ==> #[trigger] payload_at(runs@, byte) is Some,
{
    let end: u64 = range.offset + range.len;
    let mut next: u64 = range.offset;
    let mut k: usize = first;
    while k < last && next < end
        invariant
            first <= k <= last <= runs@.len(),
            payload_wf(runs@, 1),
            end == range.end(),
            range.offset <= next,
            forall|j: int| first <= j < k ==> (#[trigger] runs@[j]).end() <= next,
            forall|byte: int|
                range.offset <= byte < next ==> #[trigger] run_among(
                    runs@,
                    first as int,
                    last as int,
                    byte,
                ),
        decreases last - k,
    {
        let run = &runs[k];
        assert(runs@[k as int].end() <= u64::MAX);
        let run_end: u64 = run.offset + run.bytes.len() as u64;
        if run.offset > next {
            proof {
                assert forall|j: int| first <= j < last implies !(#[trigger] runs@[j]).contains(
                    next as int,
                ) by {
                    if k < j {
                        assert(runs@[k as int].end() <= runs@[j].offset);
                    }
                }
                assert(range.contains(next as int));
                assert(!run_among(runs@, first as int, last as int, next as int));
            }
            return false;
        }
        if run_end > next {
            proof {
                assert forall|byte: int| range.offset <= byte < run_end implies #[trigger] run_among(
                    runs@,
                    first as int,
                    last as int,
                    byte,
                ) by {
                    if byte >= next {
                        assert(runs@[k as int].contains(byte));
                    }
                }
            }
            next = run_end;
        }
        k = k + 1;
    }
    proof {
        if next < end {
            assert(range.contains(next as int));
            assert(!run_among(runs@, first as int, last as int, next as int));
        } else {
            assert forall|byte: int| range.contains(byte) implies #[trigger] payload_at(
                runs@,
                byte,
            ) is Some by {
                assert(run_among(runs@, first as int, last as int, byte));
                let j = choose|j: int| first <= j < last && (#[trigger] runs@[j]).contains(byte);
                lemma_payload_run(runs@, 1, j, byte);
            }
        }
    }
    next >= end
}

/// Puts the runs from `first` to before `last` over the bytes from `start` on.
pub fn overlay_native_batch_writes(
    start: u64,
    runs: &Vec<PayloadRun>,
    first: usize,
    last: usize,
    bytes: &mut Vec<u8>,
)
    requires
        payload_wf(runs@, 1),
        first <= last <= runs@.len(),
        forall|k: int|
            first <= k < last ==> start <= (#[trigger] runs@[k]).offset && runs@[k].end() <= start
                + old(bytes)@.len(),
    ensures
        final(bytes)@.len() == old(bytes)@.len(),
        forall|i: int|
            0 <= i < old(bytes)@.len() ==> (#[trigger] final(bytes)@[i]) == if run_among(
                runs@,
                first as int,
                last as int,
                start + i,
            ) {
                payload_at(runs@, start + i)->0.value
            } else {
                old(bytes)@[i]
            },
{
    let mut k: usize = first;
    while k < last
        invariant
            first <= k <= last <= runs@.len(),
            payload_wf(runs@, 1),
            bytes@.len() == old(bytes)@.len(),
            forall|k: int|
                first <= k < last ==> start <= (#[trigger] runs@[k]).offset && runs@[k].end()
                    <= start + bytes@.len(),
            forall|i: int|
                0 <= i < bytes@.len() ==> (#[trigger] bytes@[i]) == if run_among(
                    runs@,
                    first as int,
                    k as int,
                    start + i,
                ) {
                    payload_at(runs@, start + i)->0.value
                } else {
                    old(bytes)@[i]
                },
        decreases last - k,
    {
        let run = &runs[k];
        let ghost before = bytes@;
        assert(start <= runs@[k as int].offset);
        let offset: u64 = run.offset - start;
        let at: usize = offset as usize;
        let mut n: usize = 0;
        let size: usize = bytes.len();
        while n < run.bytes.len()
            invariant
                n <= run.bytes@.len(),
                at == run.offset - start,
                at + run.bytes@.len() <= bytes@.len(),
                size == bytes@.len(),
                bytes@.len() == before.len(),
                forall|i: int|
                    0 <= i < bytes@.len() ==> (#[trigger] bytes@[i]) == if at <= i < at + n {
                        run.bytes@[i - at]
                    } else {
                        before[i]
                    },
            decreases run.bytes@.len() - n,
        {
            bytes.set(at + n, run.bytes[n]);
            n = n + 1;
        }
        proof {
            assert forall|i: int| 0 <= i < bytes@.len() implies (#[trigger] bytes@[i]) == (
            if run_among(runs@, first as int, k + 1, start + i) {
                payload_at(runs@, start + i)->0.value
            } else {
                old(bytes)@[i]
            }) by {
                let byte = start + i;
                if runs@[k as int].contains(byte) {
                    lemma_payload_run(runs@, 1, k as int, byte);
                    assert(run_among(runs@, first as int, k + 1, byte));
                } else {
                    assert(run_among(runs@, first as int, k + 1, byte) == run_among(
                        runs@,
                        first as int,
                        k as int,
                        byte,
                    )) by {
                        if run_among(runs@, first as int, k + 1, byte) {
                            let m = choose|m: int|
                                first <= m < k + 1 && (#[trigger] runs@[m]).contains(byte);
                            assert(m < k);
                        }
                        if run_among(runs@, first as int, k as int, byte) {
                            let m = choose|m: int|
                                first <= m < k && (#[trigger] runs@[m]).contains(byte);
                            assert(runs@[m].contains(byte));
                        }
                    }
                }
            }
        }
        k = k + 1;
    }
}

/// Whether one of some runs holds a byte.
pub open spec fn run_among(runs: Seq<PayloadRun>, first: int, last: int, byte: int) -> bool {
    exists|k: int| first <= k < last && (#[trigger] runs[k]).contains(byte)
}

} // verus!
