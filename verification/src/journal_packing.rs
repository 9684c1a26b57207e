//! Packing consecutive inline writes of the block journal into one record.
use vstd::arithmetic::div_mod::{lemma_fundamental_div_mod, lemma_mod_multiples_basic};
use vstd::prelude::*;

use crate::block_api::{ByteRange, DeviceSpec, PayloadIntegrity};
use crate::checksum::data_log_checksum;
use crate::codec::{be_bytes, lemma_wire_all_push, wire_all, DurableEncode, DurableEncoder};
use crate::error::StorageError;
use crate::id::CommitSeq;
use crate::journal_records::{
    packed_payload_len, BlockJournalCommit, BlockJournalEntry, BlockJournalRecord,
    PackedBlockJournalEntry, PackedBlockJournalWrites,
};

verus! {

impl BlockJournalEntry {
    pub open spec fn covers(self) -> ByteRange {
        match self {
            BlockJournalEntry::Write { range, .. } => range,
            BlockJournalEntry::Segment { range, .. } => range,
            BlockJournalEntry::Sparse { range } => range,
        }
    }

    /// How many payload bytes the entry commits.
    pub open spec fn payload_bytes(self) -> u64 {
        match self {
            BlockJournalEntry::Write { range, .. } => range.len,
            BlockJournalEntry::Segment { range, .. } => range.len,
            BlockJournalEntry::Sparse { .. } => 0,
        }
    }

    /// Whether the payload is as long as the range that it fills.
    pub open spec fn payload_fits(self) -> bool {
        match self {
            BlockJournalEntry::Write { range, bytes, .. } => bytes@.len() == range.len,
            BlockJournalEntry::Segment { range, segment_offset, .. } => segment_offset + range.len
                <= u64::MAX,
            BlockJournalEntry::Sparse { .. } => true,
        }
    }

    pub fn range(&self) -> (range: ByteRange)
        ensures
            range == self.covers(),
    {
        match self {
            BlockJournalEntry::Write { range, .. } => *range,
            BlockJournalEntry::Segment { range, .. } => *range,
            BlockJournalEntry::Sparse { range } => *range,
        }
    }

    pub fn committed_bytes(&self) -> (bytes: u64)
        ensures
            bytes == self.payload_bytes(),
    {
        match self {
            BlockJournalEntry::Write { range, .. } => range.len,
            BlockJournalEntry::Segment { range, .. } => range.len,
            BlockJournalEntry::Sparse { .. } => 0,
        }
    }
}

/// The payload bytes of all entries together.
pub open spec fn total_payload_bytes(entries: Seq<BlockJournalEntry>) -> nat
    decreases entries.len(),
{
    if entries.len() == 0 {
        0
    } else {
        total_payload_bytes(entries.drop_last()) + entries.last().payload_bytes() as nat
    }
}

proof fn lemma_total_payload_bytes_take(entries: Seq<BlockJournalEntry>, count: int)
    requires
        0 <= count <= entries.len(),
    ensures
        total_payload_bytes(entries.take(count)) <= total_payload_bytes(entries),
    decreases entries.len() - count,
{
    if count < entries.len() {
        lemma_total_payload_bytes_take(entries, count + 1);
        assert(entries.take(count + 1).drop_last() =~= entries.take(count));
    } else {
        assert(entries.take(count) =~= entries);
    }
}

impl BlockJournalCommit {
    /// Whether the commit can be replayed on a device of this shape.
    pub open spec fn valid_for(&self, spec: DeviceSpec) -> bool {
        &&& self.entries@.len() > 0
        &&& forall|i: int|
            0 <= i < self.entries@.len() ==> (#[trigger] self.entries@[i]).covers().fits_device(spec)
                && self.entries@[i].payload_fits()
        &&& self.committed_bytes == total_payload_bytes(self.entries@)
    }

    /// Accepts exactly the commits that can be replayed on the device.
    pub fn validate(&self, spec: &DeviceSpec) -> (result: Result<(), StorageError>)
        ensures
            result is Ok <==> self.valid_for(*spec),
            result matches Err(error) ==> error is Corrupt || error is InvalidArgument,
    {
        if self.entries.len() == 0 {
            return Err(StorageError::corrupt("block journal commit has no entries"));
        }
        let mut committed_bytes: u64 = 0;
        let mut i: usize = 0;
        assert(self.entries@.take(0) =~= Seq::<BlockJournalEntry>::empty());
        while i < self.entries.len()
            invariant
                i <= self.entries@.len(),
                committed_bytes == total_payload_bytes(self.entries@.take(i as int)),
                forall|k: int|
                    0 <= k < i ==> (#[trigger] self.entries@[k]).covers().fits_device(*spec)
                        && self.entries@[k].payload_fits(),
            decreases self.entries@.len() - i,
        {
            let entry = &self.entries[i];
            proof {
                assert(self.entries@.take(i + 1).drop_last() =~= self.entries@.take(i as int));
                lemma_total_payload_bytes_take(self.entries@, i + 1);
            }
            match entry.range().validate_for_device(spec) {
                Ok(()) => {},
                Err(error) => return Err(error),
            }
            match entry {
                BlockJournalEntry::Write { bytes, range, .. } => {
                    if bytes.len() as u64 != range.len {
                        return Err(
                            StorageError::corrupt(
                                "block journal payload length disagrees with range",
                            ),
                        );
                    }
                },
                BlockJournalEntry::Segment { segment_offset, range, .. } => {
                    if segment_offset.checked_add(range.len).is_none() {
                        return Err(
                            StorageError::corrupt("block journal segment reference overflows"),
                        );
                    }
                },
                BlockJournalEntry::Sparse { .. } => {},
            }
            committed_bytes = match committed_bytes.checked_add(entry.committed_bytes()) {
                Some(sum) => sum,
                None => return Err(StorageError::corrupt("block journal committed bytes overflow")),
            };
            i = i + 1;
        }
        assert(self.entries@.take(self.entries@.len() as int) =~= self.entries@);
        if committed_bytes != self.committed_bytes {
            return Err(
                StorageError::corrupt("block journal committed byte count disagrees with entries"),
            );
        }
        Ok(())
    }

    /// Whether the commit is one inline write, so that it can be packed.
    pub open spec fn packable(&self) -> bool {
        &&& self.write_count == 1
        &&& self.collapsed_range_count == 1
        &&& self.entries@.len() == 1
        &&& self.entries@[0] matches BlockJournalEntry::Write { range, bytes, .. } && range.len > 0
            && bytes@.len() == range.len && self.committed_bytes == range.len
    }
}

impl PackedBlockJournalWrites {
    /// Whether `commit` is what entry `i` of this record stands for.
    pub open spec fn stands_for(&self, i: int, commit: BlockJournalCommit) -> bool {
        let entry = self.entries@[i];
        let len = entry.block_count * self.block_size;
        &&& commit.device_id == self.device_id
        &&& commit.writer_epoch == self.writer_epoch
        &&& commit.commit_seq.0 == self.first_commit_seq.0 + entry.commit_seq_delta
        &&& commit.write_count == 1
        &&& commit.collapsed_range_count == 1
        &&& commit.committed_bytes == len
        &&& commit.entries@.len() == 1
        &&& commit.entries@[0] matches BlockJournalEntry::Write { range, payload_integrity, bytes }
            && range.offset == entry.lba * self.block_size && range.len == len && payload_integrity
            == entry.payload_integrity && bytes@ == self.payload_slab@.subrange(
            entry.payload_offset as int,
            entry.payload_offset + len,
        )
    }

    /// The commits that the record stands for, in order.
    pub fn expand_commits(&self) -> (result: Result<Vec<BlockJournalCommit>, StorageError>)
        ensures
            result is Ok <==> self.valid(),
            result matches Ok(commits) ==> commits@.len() == self.entries@.len() && forall|i: int|
                0 <= i < commits@.len() ==> self.stands_for(i, #[trigger] commits@[i]),
            result matches Err(error) ==> error is Corrupt,
    {
        match self.validate() {
            Ok(()) => {},
            Err(error) => return Err(error),
        }
        let mut out: Vec<BlockJournalCommit> = Vec::new();
        let mut i: usize = 0;
        while i < self.entries.len()
            invariant
                i <= self.entries@.len(),
                self.valid(),
                out@.len() == i,
                forall|k: int| 0 <= k < out@.len() ==> self.stands_for(k, #[trigger] out@[k]),
            decreases self.entries@.len() - i,
        {
            let entry = &self.entries[i];
            proof {
                assert(self.entry_valid(i as int));
                crate::journal_records::lemma_packed_payload_len_monotone(
                    self.entries@,
                    self.block_size,
                    i + 1,
                    self.entries@.len() as int,
                );
                assert(entry.payload_offset + entry.block_count * self.block_size
                    <= self.payload_slab@.len());
            }
            let commit_seq = match self.commit_seq_for_entry(entry) {
                Ok(commit_seq) => commit_seq,
                Err(error) => return Err(error),
            };
            let offset: u64 = entry.lba * self.block_size;
            let len: u64 = entry.block_count * self.block_size;
            let payload_len: usize = self.payload_slab.len();
            let payload_start: usize = entry.payload_offset as usize;
            let payload_end: usize = (entry.payload_offset + len) as usize;
            let bytes = vstd::slice::slice_to_vec(
                vstd::slice::slice_subrange(
                    self.payload_slab.as_slice(),
                    payload_start,
                    payload_end,
                ),
            );
            let mut entries: Vec<BlockJournalEntry> = Vec::new();
            entries.push(
                BlockJournalEntry::Write {
                    range: ByteRange { offset, len },
                    payload_integrity: entry.payload_integrity,
                    bytes,
                },
            );
            out.push(
                BlockJournalCommit {
                    device_id: self.device_id,
                    writer_epoch: self.writer_epoch,
                    commit_seq,
                    write_count: 1,
                    collapsed_range_count: 1,
                    committed_bytes: len,
                    entries,
                },
            );
            assert(self.stands_for(i as int, out@[i as int]));
            i = i + 1;
        }
        Ok(out)
    }
}

/// Whether `divisor` divides `value`.
pub open spec fn divides(divisor: int, value: int) -> bool {
    divisor > 0 && value % divisor == 0
}

/// Whether `unit` is the greatest common divisor of two numbers, which for two
/// zeros is zero.
pub open spec fn is_gcd(unit: int, left: int, right: int) -> bool {
    if left == 0 && right == 0 {
        unit == 0
    } else {
        &&& divides(unit, left)
        &&& divides(unit, right)
        &&& forall|d: int| #[trigger] divides(d, left) && divides(d, right) ==> divides(d, unit)
    }
}

proof fn lemma_divides_remainder(d: int, left: int, right: int)
    requires
        right > 0,
        left >= 0,
        d > 0,
    ensures
        divides(d, left) && divides(d, right) ==> divides(d, left % right),
        divides(d, left % right) && divides(d, right) ==> divides(d, left),
{
    lemma_fundamental_div_mod(left, right);
    let q = left / right;
    let r = left % right;
    if divides(d, right) {
        lemma_fundamental_div_mod(right, d);
        let k = right / d;
        if divides(d, left) {
            lemma_fundamental_div_mod(left, d);
            let m = left / d;
            assert(r == (m - k * q) * d) by (nonlinear_arith)
                requires
                    left == d * m,
                    right == d * k,
                    left == right * q + r,
            ;
            lemma_mod_multiples_basic(m - k * q, d);
        }
        if divides(d, r) {
            lemma_fundamental_div_mod(r, d);
            let m = r / d;
            assert(left == (m + k * q) * d) by (nonlinear_arith)
                requires
                    r == d * m,
                    right == d * k,
                    left == right * q + r,
            ;
            lemma_mod_multiples_basic(m + k * q, d);
        }
    }
}

/// The greatest common divisor.
pub fn block_journal_gcd(left: u64, right: u64) -> (unit: u64)
    ensures
        is_gcd(unit as int, left as int, right as int),
{
    let mut a: u64 = left;
    let mut b: u64 = right;
    while b != 0
        invariant
            a == 0 && b == 0 <==> left == 0 && right == 0,
            forall|d: int|
                (#[trigger] divides(d, left as int) && divides(d, right as int)) <==> (divides(
                    d,
                    a as int,
                ) && divides(d, b as int)),
        decreases b,
    {
        let remainder: u64 = a % b;
        proof {
            assert forall|d: int|
                (#[trigger] divides(d, left as int) && divides(d, right as int)) <==> (divides(
                    d,
                    b as int,
                ) && divides(d, remainder as int)) by {
                if d > 0 {
                    lemma_divides_remainder(d, a as int, b as int);
                }
            }
        }
        a = b;
        b = remainder;
    }
    proof {
        if left != 0 || right != 0 {
            assert(divides(a as int, a as int) && divides(a as int, 0));
            assert(divides(a as int, left as int) && divides(a as int, right as int));
        }
    }
    a
}

/// The unit that measures `value` as well as all that `unit` measures, where
/// zero stands for nothing yet.
pub fn block_journal_packing_unit_add(unit: u64, value: u64) -> (next: u64)
    ensures
        is_gcd(next as int, unit as int, value as int),
{
    if value == 0 {
        proof {
            if unit > 0 {
                assert(divides(unit as int, unit as int) && divides(unit as int, 0));
            }
        }
        unit
    } else if unit == 0 {
        proof {
            assert(divides(value as int, value as int) && divides(value as int, 0));
        }
        value
    } else {
        block_journal_gcd(unit, value)
    }
}

/// The range, checksum policy and payload of a commit that can be packed.
pub fn block_journal_commit_packing_entry(commit: &BlockJournalCommit) -> (found: Option<
    (ByteRange, PayloadIntegrity, &Vec<u8>),
>)
    ensures
        found is Some <==> commit.packable(),
        found matches Some((range, payload_integrity, bytes)) ==> commit.entries@[0] == (
        BlockJournalEntry::Write { range, payload_integrity, bytes: *bytes }),
{
    if commit.write_count != 1 || commit.collapsed_range_count != 1 || commit.entries.len() != 1 {
        return None;
    }
    match &commit.entries[0] {
        BlockJournalEntry::Write { range, payload_integrity, bytes } => {
            if range.len == 0 {
                return None;
            }
            if bytes.len() as u64 != range.len || commit.committed_bytes != range.len {
                return None;
            }
            Some((*range, *payload_integrity, bytes))
        },
        _ => None,
    }
}

/// Whether record `start + k` continues the run of writes that starts at
/// `start`: same device and writer, later commit.
pub open spec fn continues_run(records: Seq<BlockJournalRecord>, start: int, k: int) -> bool {
    &&& 0 <= start
    &&& 0 <= k
    &&& start + k < records.len()
    &&& records[start] is Write
    &&& records[start + k] is Write
    &&& records[start + k]->Write_0.device_id == records[start]->Write_0.device_id
    &&& records[start + k]->Write_0.writer_epoch == records[start]->Write_0.writer_epoch
    &&& k > 0 ==> records[start + k - 1] is Write && records[start + k - 1]->Write_0.commit_seq.0
        < records[start + k]->Write_0.commit_seq.0
}

/// Whether the `len` records from `start` on are packed together: a whole run
/// of at least two packable writes.
pub open spec fn is_packed_group(records: Seq<BlockJournalRecord>, start: int, len: int) -> bool {
    &&& len > 1
    &&& forall|k: int|
        0 <= k < len ==> #[trigger] continues_run(records, start, k)
            && records[start + k]->Write_0.packable()
    &&& !continues_run(records, start, len)
}

/// How many records from `start` on are packed together.
pub fn block_journal_packed_group_len(records: &[BlockJournalRecord], start: usize) -> (group:
    Option<usize>)
    ensures
        group matches Some(len) ==> is_packed_group(records@, start as int, len as int) && start
            + len <= records@.len(),
        group is None ==> forall|len: int| !#[trigger] is_packed_group(records@, start as int, len),
{
    if start >= records.len() {
        proof {
            assert forall|len: int| !#[trigger] is_packed_group(records@, start as int, len) by {
                assert(len > 1 ==> !continues_run(records@, start as int, 0));
            }
        }
        return None;
    }
    let first = match &records[start] {
        BlockJournalRecord::Write(first) => first,
        _ => {
            proof {
                assert forall|len: int| !#[trigger] is_packed_group(
                    records@,
                    start as int,
                    len,
                ) by {
                    assert(len > 1 ==> !continues_run(records@, start as int, 0));
                }
            }
            return None;
        },
    };
    let mut group_len: usize = 0;
    let mut previous_seq: Option<u64> = None;
    let mut ended = false;
    while start + group_len < records.len() && !ended
        invariant
            start < records@.len(),
            start + group_len <= records@.len(),
            records@.len() <= usize::MAX,
            records@[start as int] == BlockJournalRecord::Write(*first),
            forall|k: int|
                0 <= k < group_len ==> #[trigger] continues_run(records@, start as int, k)
                    && records@[start + k]->Write_0.packable(),
            previous_seq is None <==> group_len == 0,
            previous_seq matches Some(seq) ==> records@[start + group_len - 1] is Write
                && records@[start + group_len - 1]->Write_0.commit_seq.0 == seq,
            ended ==> !continues_run(records@, start as int, group_len as int),
        decreases records@.len() - start - group_len, (if ended { 0int } else { 1int }),
    {
        match &records[start + group_len] {
            BlockJournalRecord::Write(commit) => {
                let in_order = match previous_seq {
                    Some(seq) => commit.commit_seq.raw() > seq,
                    None => true,
                };
                if commit.device_id != first.device_id || commit.writer_epoch
                    != first.writer_epoch || !in_order {
                    ended = true;
                } else {
                    assert(continues_run(records@, start as int, group_len as int));
                    if block_journal_commit_packing_entry(commit).is_none() {
                        proof {
                            let stop = group_len as int;
                            assert forall|len: int| !#[trigger] is_packed_group(
                                records@,
                                start as int,
                                len,
                            ) by {
                                if is_packed_group(records@, start as int, len) {
                                    if len > stop {
                                        assert(continues_run(records@, start as int, stop));
                                    } else if len < stop {
                                        assert(continues_run(records@, start as int, len));
                                    }
                                }
                            }
                        }
                        return None;
                    }
                    assert(commit.packable());
                    let ghost stop = group_len as int;
                    assert(records@[start + stop]->Write_0 == *commit);
                    previous_seq = Some(commit.commit_seq.raw());
                    group_len = group_len + 1;
                    assert forall|k: int| 0 <= k < group_len implies #[trigger] continues_run(
                        records@,
                        start as int,
                        k,
                    ) && records@[start + k]->Write_0.packable() by {
                        if k == stop {
                            assert(continues_run(records@, start as int, stop));
                            assert(records@[start + k]->Write_0.packable());
                        } else {
                            assert(continues_run(records@, start as int, k));
                            assert(records@[start + k]->Write_0.packable());
                        }
                    }
                }
            },
            _ => {
                ended = true;
            },
        }
    }
    assert(!continues_run(records@, start as int, group_len as int));
    if group_len > 1 {
        Some(group_len)
    } else {
        proof {
            assert forall|len: int| !#[trigger] is_packed_group(records@, start as int, len) by {
                if is_packed_group(records@, start as int, len) {
                    assert(continues_run(records@, start as int, group_len as int));
                }
            }
        }
        None
    }
}

/// Whether every record is a write that can be packed.
pub open spec fn all_packable(records: Seq<BlockJournalRecord>) -> bool {
    forall|i: int|
        0 <= i < records.len() ==> (#[trigger] records[i]) is Write && records[i]->Write_0.packable()
}

/// Whether `unit` measures offset and length of every packed write.
pub open spec fn measures(unit: int, records: Seq<BlockJournalRecord>) -> bool {
    forall|i: int|
        0 <= i < records.len() ==> divides(
            unit,
            (#[trigger] records[i])->Write_0.entries@[0].covers().offset as int,
        ) && divides(unit, records[i]->Write_0.entries@[0].covers().len as int)
}

/// The largest unit that measures every packed write.
pub fn block_journal_packed_group_unit(records: &[BlockJournalRecord]) -> (result: Result<
    u64,
    StorageError,
>)
    ensures
        result is Ok <==> records@.len() > 0 && all_packable(records@),
        result matches Ok(unit) ==> unit > 0 && measures(unit as int, records@) && forall|d: int|
            d > 0 && #[trigger] measures(d, records@) ==> divides(d, unit as int),
        result matches Err(error) ==> error is Corrupt,
{
    let mut unit: u64 = 0;
    let mut i: usize = 0;
    while i < records.len()
        invariant
            i <= records@.len(),
            all_packable(records@.take(i as int)),
            unit > 0 <==> i > 0,
            unit > 0 ==> measures(unit as int, records@.take(i as int)),
            forall|d: int|
                d > 0 && unit > 0 && #[trigger] measures(d, records@.take(i as int)) ==> divides(
                    d,
                    unit as int,
                ),
        decreases records@.len() - i,
    {
        let ghost done = records@.take(i as int);
        let ghost longer = records@.take(i + 1);
        let commit = match &records[i] {
            BlockJournalRecord::Write(commit) => commit,
            _ => {
                proof {
                    assert(records@[i as int] !is Write);
                }
                return Err(
                    StorageError::corrupt("packed block journal group includes non-write record"),
                );
            },
        };
        let (range, _, _) = match block_journal_commit_packing_entry(commit) {
            Some(found) => found,
            None => {
                proof {
                    assert(!records@[i as int]->Write_0.packable());
                }
                return Err(
                    StorageError::corrupt("packed block journal group includes ineligible write"),
                );
            },
        };
        let ghost before = unit;
        unit = block_journal_packing_unit_add(unit, range.offset);
        let ghost middle = unit;
        unit = block_journal_packing_unit_add(unit, range.len);
        proof {
            assert(longer.last() == records@[i as int]);
            assert forall|k: int| 0 <= k < longer.len() implies (#[trigger] longer[k]) is Write
                && longer[k]->Write_0.packable() by {
                if k < i {
                    assert(done[k] == longer[k]);
                }
            }
            assert forall|k: int| 0 <= k < longer.len() implies divides(
                unit as int,
                (#[trigger] longer[k])->Write_0.entries@[0].covers().offset as int,
            ) && divides(unit as int, longer[k]->Write_0.entries@[0].covers().len as int) by {
                if k < i {
                    assert(done[k] == longer[k]);
                    let offset = done[k]->Write_0.entries@[0].covers().offset as int;
                    let len = done[k]->Write_0.entries@[0].covers().len as int;
                    lemma_divides_through(unit as int, middle as int, before as int);
                    lemma_divides_through(unit as int, before as int, offset);
                    lemma_divides_through(unit as int, before as int, len);
                } else {
                    if middle > 0 {
                        lemma_divides_through(unit as int, middle as int, range.offset as int);
                    } else {
                        assert(range.offset == 0);
                    }
                }
            }
            assert forall|d: int| d > 0 && #[trigger] measures(d, longer) implies divides(
                d,
                unit as int,
            ) by {
                assert forall|k: int| 0 <= k < done.len() implies divides(
                    d,
                    (#[trigger] done[k])->Write_0.entries@[0].covers().offset as int,
                ) && divides(d, done[k]->Write_0.entries@[0].covers().len as int) by {
                    assert(done[k] == longer[k]);
                }
                assert(measures(d, done));
                assert(divides(d, longer[i as int]->Write_0.entries@[0].covers().offset as int));
                assert(divides(d, range.offset as int) && divides(d, range.len as int));
                if before > 0 {
                    assert(divides(d, before as int));
                } else {
                    assert(divides(d, 0));
                }
                assert(divides(d, middle as int));
            }
        }
        i = i + 1;
    }
    assert(records@.take(records@.len() as int) =~= records@);
    if unit == 0 {
        return Err(StorageError::corrupt("packed block journal group has no range unit"));
    }
    Ok(unit)
}

proof fn lemma_divides_through(a: int, b: int, c: int)
    ensures
        divides(a, b) && divides(b, c) ==> divides(a, c),
{
    if divides(a, b) && divides(b, c) {
        lemma_fundamental_div_mod(b, a);
        lemma_fundamental_div_mod(c, b);
        let (m, n) = (b / a, c / b);
        assert(c == (m * n) * a) by (nonlinear_arith)
            requires
                b == a * m,
                c == b * n,
        ;
        lemma_mod_multiples_basic(m * n, a);
    }
}

/// The payload of every packed write, one after the other.
pub open spec fn packed_slab(records: Seq<BlockJournalRecord>) -> Seq<u8>
    decreases records.len(),
{
    if records.len() == 0 {
        seq![]
    } else {
        packed_slab(records.drop_last()) + records.last()->Write_0.entries@[0]->Write_bytes@
    }
}

/// Whether `entry` is the packed form of a write that starts a payload at
/// `payload_offset`.
pub open spec fn packs_entry(
    entry: PackedBlockJournalEntry,
    first: CommitSeq,
    unit: u64,
    payload_offset: nat,
    commit: BlockJournalCommit,
) -> bool {
    let range = commit.entries@[0].covers();
    &&& first.0 + entry.commit_seq_delta == commit.commit_seq.0
    &&& entry.lba * unit == range.offset
    &&& entry.block_count * unit == range.len
    &&& entry.payload_offset == payload_offset
    &&& entry.payload_integrity == commit.entries@[0]->Write_payload_integrity
}

/// Whether `packed` is the packed form of `records`.
pub open spec fn packs(packed: PackedBlockJournalWrites, records: Seq<BlockJournalRecord>) -> bool {
    &&& records.len() > 0
    &&& all_packable(records)
    &&& packed.device_id == records[0]->Write_0.device_id
    &&& packed.writer_epoch == records[0]->Write_0.writer_epoch
    &&& packed.first_commit_seq == records[0]->Write_0.commit_seq
    &&& packed.block_size > 0
    &&& packed.entries@.len() == records.len()
    &&& forall|i: int|
        0 <= i < records.len() ==> packs_entry(
            #[trigger] packed.entries@[i],
            packed.first_commit_seq,
            packed.block_size,
            packed_slab(records.take(i)).len(),
            records[i]->Write_0,
        )
    &&& packed.payload_slab@ == packed_slab(records)
    &&& packed.payload_checksum == crate::checksum::checksum(packed.payload_slab@)
}

/// Whether all records are writes of one writer in ascending order.
pub open spec fn is_run(records: Seq<BlockJournalRecord>) -> bool {
    forall|k: int| 0 <= k < records.len() ==> #[trigger] continues_run(records, 0, k)
}

proof fn lemma_packed_slab_split(records: Seq<BlockJournalRecord>, i: int)
    requires
        all_packable(records),
        0 <= i < records.len(),
    ensures
        packed_slab(records.take(i)).len() + records[i]->Write_0.entries@[0].covers().len
            == packed_slab(records.take(i + 1)).len(),
        packed_slab(records.take(i + 1)).len() <= packed_slab(records).len(),
        packed_slab(records).subrange(
            packed_slab(records.take(i)).len() as int,
            packed_slab(records.take(i + 1)).len() as int,
        ) == records[i]->Write_0.entries@[0]->Write_bytes@,
    decreases records.len(),
{
    assert(records[i] is Write && records[i]->Write_0.packable());
    let next = records.take(i + 1);
    assert(next.drop_last() =~= records.take(i));
    assert(next.last() == records[i]);
    let (before, bytes) = (
        packed_slab(records.take(i)),
        records[i]->Write_0.entries@[0]->Write_bytes@,
    );
    if i + 1 == records.len() {
        assert(next =~= records);
        assert((before + bytes).subrange(
            before.len() as int,
            (before + bytes).len() as int,
        ) =~= bytes);
    } else {
        let shorter = records.drop_last();
        assert forall|k: int| 0 <= k < shorter.len() implies (#[trigger] shorter[k]) is Write
            && shorter[k]->Write_0.packable() by {
            assert(records[k] is Write);
        }
        lemma_packed_slab_split(shorter, i);
        assert(shorter.take(i) =~= records.take(i));
        assert(shorter.take(i + 1) =~= next);
        assert(shorter[i] == records[i]);
        let last = records.last()->Write_0.entries@[0]->Write_bytes@;
        assert((packed_slab(shorter) + last).subrange(
            before.len() as int,
            packed_slab(next).len() as int,
        ) =~= packed_slab(shorter).subrange(
            before.len() as int,
            packed_slab(next).len() as int,
        ));
    }
}

proof fn lemma_packs_offsets(
    packed: PackedBlockJournalWrites,
    records: Seq<BlockJournalRecord>,
    i: int,
)
    requires
        packs(packed, records),
        0 <= i <= records.len(),
    ensures
        packed_payload_len(packed.entries@, packed.block_size, i) == packed_slab(
            records.take(i),
        ).len(),
    decreases i,
{
    if i > 0 {
        lemma_packs_offsets(packed, records, i - 1);
        lemma_packed_slab_split(records, i - 1);
        assert(packs_entry(
            packed.entries@[i - 1],
            packed.first_commit_seq,
            packed.block_size,
            packed_slab(records.take(i - 1)).len(),
            records[i - 1]->Write_0,
        ));
    } else {
        assert(records.take(0) =~= Seq::<BlockJournalRecord>::empty());
    }
}

/// Packing loses nothing: the packed form of one writer's run is a valid
/// record, and entry by entry it stands for the writes that were packed.
pub proof fn law_packed_run_stands_for_its_writes(
    packed: PackedBlockJournalWrites,
    records: Seq<BlockJournalRecord>,
)
    requires
        packs(packed, records),
        is_run(records),
    ensures
        packed.valid(),
        packed.entries@.len() == records.len(),
        forall|i: int|
            0 <= i < records.len() ==> packed.stands_for(i, (#[trigger] records[i])->Write_0),
{
    assert(records.take(records.len() as int) =~= records);
    lemma_packs_offsets(packed, records, records.len() as int);
    assert forall|i: int| 0 <= i < records.len() implies packed.stands_for(
        i,
        (#[trigger] records[i])->Write_0,
    ) && packed.entry_valid(i) by {
        assert(records[i] is Write && records[i]->Write_0.packable());
        assert(continues_run(records, 0, i));
        assert(packs_entry(
            packed.entries@[i],
            packed.first_commit_seq,
            packed.block_size,
            packed_slab(records.take(i)).len(),
            records[i]->Write_0,
        ));
        lemma_packed_slab_split(records, i);
        lemma_packs_offsets(packed, records, i);
        let entry = packed.entries@[i];
        assert(entry.block_count > 0) by (nonlinear_arith)
            requires
                entry.block_count * packed.block_size > 0,
        ;
        if i > 0 {
            assert(packs_entry(
                packed.entries@[i - 1],
                packed.first_commit_seq,
                packed.block_size,
                packed_slab(records.take(i - 1)).len(),
                records[i - 1]->Write_0,
            ));
        }
    }
    assert forall|i: int| 0 <= i < packed.entries@.len() implies #[trigger] packed.entry_valid(
        i,
    ) by {
        assert(packed.stands_for(i, records[i]->Write_0));
    }
}

/// The packed form of writes.
pub fn pack_block_journal_writes(records: &[BlockJournalRecord]) -> (result: Result<
    PackedBlockJournalWrites,
    StorageError,
>)
    ensures
        result is Ok <==> records@.len() > 0 && all_packable(records@) && packed_slab(
            records@,
        ).len() <= u64::MAX && forall|i: int|
            0 <= i < records@.len() ==> (#[trigger] records@[i])->Write_0.commit_seq.0
                >= records@[0]->Write_0.commit_seq.0,
        result matches Ok(packed) ==> packs(packed, records@),
        result matches Err(error) ==> (error is InvalidArgument <==> records@.len() == 0
            || !(records@[0] is Write)),
{
    if records.len() == 0 {
        return Err(
            StorageError::invalid_argument("packed block journal group must start with a write"),
        );
    }
    let first = match &records[0] {
        BlockJournalRecord::Write(first) => first,
        _ => {
            assert(!all_packable(records@));
            return Err(
                StorageError::invalid_argument(
                    "packed block journal group must start with a write",
                ),
            );
        },
    };
    let block_size: u64 = match block_journal_packed_group_unit(records) {
        Ok(unit) => unit,
        Err(error) => return Err(error),
    };
    let mut entries: Vec<PackedBlockJournalEntry> = Vec::new();
    let mut payload_slab: Vec<u8> = Vec::new();
    let mut payload_offset: u64 = 0;
    let mut i: usize = 0;
    assert(records@.take(0) =~= Seq::<BlockJournalRecord>::empty());
    while i < records.len()
        invariant
            i <= records@.len(),
            records@.len() > 0,
            all_packable(records@),
            records@[0] == BlockJournalRecord::Write(*first),
            block_size > 0,
            measures(block_size as int, records@),
            entries@.len() == i,
            payload_slab@ == packed_slab(records@.take(i as int)),
            payload_offset == payload_slab@.len(),
            forall|k: int|
                0 <= k < i ==> (#[trigger] records@[k])->Write_0.commit_seq.0
                    >= first.commit_seq.0,
            forall|k: int|
                0 <= k < i ==> packs_entry(
                    #[trigger] entries@[k],
                    first.commit_seq,
                    block_size,
                    packed_slab(records@.take(k)).len(),
                    records@[k]->Write_0,
                ),
        decreases records@.len() - i,
    {
        proof {
            assert(records@[i as int] is Write && records@[i as int]->Write_0.packable());
            lemma_packed_slab_split(records@, i as int);
            assert(records@.take(i + 1).drop_last() =~= records@.take(i as int));
        }
        let commit = match &records[i] {
            BlockJournalRecord::Write(commit) => commit,
            _ => return Err(
                StorageError::corrupt("packed block journal group includes non-write record"),
            ),
        };
        let (range, payload_integrity, bytes) = match block_journal_commit_packing_entry(commit) {
            Some(found) => found,
            None => return Err(
                StorageError::corrupt("packed block journal group includes ineligible write"),
            ),
        };
        if commit.commit_seq.raw() < first.commit_seq.raw() {
            assert(records@[i as int]->Write_0.commit_seq.0 < first.commit_seq.0);
            return Err(StorageError::corrupt("packed block journal sequence underflows"));
        }
        let commit_seq_delta: u64 = commit.commit_seq.raw() - first.commit_seq.raw();
        let lba: u64 = range.offset / block_size;
        let block_count: u64 = range.len / block_size;
        proof {
            assert(divides(
                block_size as int,
                records@[i as int]->Write_0.entries@[0].covers().offset as int,
            ));
            lemma_fundamental_div_mod(range.offset as int, block_size as int);
            lemma_fundamental_div_mod(range.len as int, block_size as int);
            assert(lba * block_size == range.offset) by (nonlinear_arith)
                requires
                    range.offset == block_size * lba,
            ;
            assert(block_count * block_size == range.len) by (nonlinear_arith)
                requires
                    range.len == block_size * block_count,
            ;
        }
        entries.push(
            PackedBlockJournalEntry {
                commit_seq_delta,
                lba,
                block_count,
                payload_offset,
                payload_integrity,
            },
        );
        payload_offset = match payload_offset.checked_add(range.len) {
            Some(next) => next,
            None => return Err(
                StorageError::conflict("packed block journal payload offset overflows"),
            ),
        };
        payload_slab.extend_from_slice(bytes.as_slice());
        assert(payload_slab@ =~= packed_slab(records@.take(i + 1)));
        i = i + 1;
    }
    assert(records@.take(records@.len() as int) =~= records@);
    let payload_checksum: u64 = data_log_checksum(payload_slab.as_slice());
    Ok(
        PackedBlockJournalWrites {
            device_id: first.device_id,
            writer_epoch: first.writer_epoch,
            block_size,
            first_commit_seq: first.commit_seq,
            entries,
            payload_checksum,
            payload_slab,
        },
    )
}

/// Where the record after the one that starts at `from` starts: behind the
/// packed group there, if there is one.
pub open spec fn next_start(records: Seq<BlockJournalRecord>, from: int) -> int {
    if exists|len: int| is_packed_group(records, from, len) {
        from + choose|len: int| is_packed_group(records, from, len)
    } else {
        from + 1
    }
}

/// Whether `starts` cuts `records` where one encoded record ends and the next
/// one starts.
pub open spec fn is_cut(records: Seq<BlockJournalRecord>, starts: Seq<int>) -> bool {
    &&& starts.len() > 0
    &&& starts[0] == 0
    &&& starts.last() == records.len()
    &&& forall|j: int|
        0 <= j < starts.len() - 1 ==> 0 <= #[trigger] starts[j] < records.len() && starts[j + 1]
            == next_start(records, starts[j])
}

/// Whether `encoded` stands for the records from `from` up to `to`.
pub open spec fn encodes_part(
    records: Seq<BlockJournalRecord>,
    encoded: BlockJournalRecord,
    from: int,
    to: int,
) -> bool {
    if exists|len: int| is_packed_group(records, from, len) {
        encoded matches BlockJournalRecord::PackedWrites(packed) && packs(
            packed,
            records.subrange(from, to),
        )
    } else {
        encoded == records[from]
    }
}

/// Whether `encoded` is what is written for `records`, cut at `starts`.
pub open spec fn encodes_records(
    records: Seq<BlockJournalRecord>,
    encoded: Seq<BlockJournalRecord>,
    starts: Seq<int>,
) -> bool {
    &&& is_cut(records, starts)
    &&& encoded.len() == starts.len() - 1
    &&& forall|j: int|
        0 <= j < encoded.len() ==> encodes_part(
            records,
            #[trigger] encoded[j],
            starts[j],
            starts[j + 1],
        )
}

proof fn lemma_group_unique(records: Seq<BlockJournalRecord>, start: int, a: int, b: int)
    requires
        is_packed_group(records, start, a),
        is_packed_group(records, start, b),
    ensures
        a == b,
{
    if a < b {
        assert(continues_run(records, start, a));
    } else if b < a {
        assert(continues_run(records, start, b));
    }
}

proof fn lemma_cut_unique(
    records: Seq<BlockJournalRecord>,
    a: Seq<int>,
    b: Seq<int>,
    k: int,
)
    requires
        is_cut(records, a),
        is_cut(records, b),
        0 <= k < a.len(),
    ensures
        k < b.len(),
        a[k] == b[k],
    decreases k,
{
    if k > 0 {
        lemma_cut_unique(records, a, b, k - 1);
        assert(a[k - 1] < records.len());
        assert(b[k - 1] == a[k - 1]);
        assert(k - 1 < b.len() - 1);
    }
}

/// A packed group is a run of packable writes.
pub proof fn lemma_group_is_run(records: Seq<BlockJournalRecord>, start: int, len: int)
    requires
        is_packed_group(records, start, len),
    ensures
        0 <= start,
        start + len <= records.len(),
        is_run(records.subrange(start, start + len)),
        all_packable(records.subrange(start, start + len)),
{
    assert(continues_run(records, start, len - 1));
    let group = records.subrange(start, start + len);
    assert forall|k: int| 0 <= k < group.len() implies #[trigger] continues_run(group, 0, k) by {
        assert(continues_run(records, start, k));
        assert(group[k] == records[start + k]);
        assert(group[0] == records[start]);
        if k > 0 {
            assert(group[k - 1] == records[start + k - 1]);
        }
    }
    assert forall|k: int| 0 <= k < group.len() implies (#[trigger] group[k]) is Write
        && group[k]->Write_0.packable() by {
        assert(continues_run(records, start, k));
    }
}

/// Whether `encoded` is a valid packed record that stands for the writes of
/// `part`, one by one.
pub open spec fn stands_for_part(
    encoded: BlockJournalRecord,
    part: Seq<BlockJournalRecord>,
) -> bool {
    &&& encoded is PackedWrites
    &&& encoded->PackedWrites_0.valid()
    &&& encoded->PackedWrites_0.entries@.len() == part.len()
    &&& forall|i: int|
        0 <= i < part.len() ==> encoded->PackedWrites_0.stands_for(
            i,
            (#[trigger] part[i])->Write_0,
        )
}

/// What is written for a list of records gives all of them back: an encoded
/// record that is not packed is the record itself, and a packed one is valid
/// and stands for the writes of its part, one by one.
pub proof fn law_encoded_records_stand_for_all(
    records: Seq<BlockJournalRecord>,
    encoded: Seq<BlockJournalRecord>,
    starts: Seq<int>,
    j: int,
)
    requires
        encodes_records(records, encoded, starts),
        0 <= j < encoded.len(),
    ensures
        0 <= starts[j] < starts[j + 1] <= records.len(),
        encoded[j] == records[starts[j]] && starts[j + 1] == starts[j] + 1 || stands_for_part(
            encoded[j],
            records.subrange(starts[j], starts[j + 1]),
        ),
{
    let (from, to) = (starts[j], starts[j + 1]);
    assert(encodes_part(records, encoded[j], from, to));
    if exists|len: int| is_packed_group(records, from, len) {
        let len = choose|len: int| is_packed_group(records, from, len);
        lemma_group_is_run(records, from, len);
        let packed = encoded[j]->PackedWrites_0;
        let part = records.subrange(from, to);
        law_packed_run_stands_for_its_writes(packed, part);
        assert(stands_for_part(encoded[j], part));
    }
}

/// How many records are written for `records`.
pub fn block_journal_encoded_record_count(records: &[BlockJournalRecord]) -> (result: Result<
    u64,
    StorageError,
>)
    ensures
        result matches Ok(count) && exists|starts: Seq<int>|
            #[trigger] is_cut(records@, starts) && count == starts.len() - 1,
{
    let mut count: u64 = 0;
    let mut index: usize = 0;
    let ghost mut starts: Seq<int> = seq![0int];
    while index < records.len()
        invariant
            index <= records@.len(),
            count <= index,
            starts.len() == count + 1,
            starts[0] == 0,
            starts.last() == index,
            forall|j: int|
                0 <= j < starts.len() - 1 ==> 0 <= #[trigger] starts[j] < records@.len() && starts[j
                    + 1] == next_start(records@, starts[j]),
        decreases records@.len() - index,
    {
        let ghost before = starts;
        let step: usize = match block_journal_packed_group_len(records, index) {
            Some(group_len) => {
                proof {
                    let chosen = choose|len: int| is_packed_group(records@, index as int, len);
                    lemma_group_unique(records@, index as int, group_len as int, chosen);
                }
                group_len
            },
            None => 1,
        };
        count = match count.checked_add(1) {
            Some(next) => next,
            None => {
                assert(false);
                return Err(StorageError::conflict("block journal record count overflows"));
            },
        };
        proof {
            starts = starts.push(index + step);
            assert forall|j: int| 0 <= j < starts.len() - 1 implies 0 <= #[trigger] starts[j]
                < records@.len() && starts[j + 1] == next_start(records@, starts[j]) by {
                if j < before.len() - 1 {
                    assert(starts[j] == before[j]);
                    assert(starts[j + 1] == before[j + 1]);
                } else {
                    assert(starts[j] == index);
                }
            }
        }
        index = index + step;
    }
    proof {
        assert(is_cut(records@, starts));
    }
    Ok(count)
}

/// Appends `records` as one list, with groups of inline writes packed.
pub fn encode_block_journal_record_sequence(
    records: &[BlockJournalRecord],
    out: &mut DurableEncoder,
) -> (result: Result<(), StorageError>)
    ensures
        result is Ok ==> exists|encoded: Seq<BlockJournalRecord>, starts: Seq<int>|
            #[trigger] encodes_records(records@, encoded, starts) && final(out)@ == old(out)@ + (
            be_bytes(encoded.len(), 8) + wire_all(encoded)),
        result is Err ==> exists|from: int, len: int|
            is_packed_group(records@, from, len) && (#[trigger] packed_slab(
                records@.subrange(from, from + len),
            )).len() > u64::MAX,
        result matches Err(error) ==> error is Conflict,
{
    let count: u64 = match block_journal_encoded_record_count(records) {
        Ok(count) => count,
        Err(error) => return Err(error),
    };
    let ghost counted = choose|starts: Seq<int>|
        #[trigger] is_cut(records@, starts) && count == starts.len() - 1;
    out.put_u64(count);
    let ghost head = out@;
    let mut index: usize = 0;
    let ghost mut starts: Seq<int> = seq![0int];
    let ghost mut encoded: Seq<BlockJournalRecord> = seq![];
    assert(head =~= head + wire_all(encoded));
    while index < records.len()
        invariant
            index <= records@.len(),
            out@ == head + wire_all(encoded),
            starts.len() == encoded.len() + 1,
            starts[0] == 0,
            starts.last() == index,
            forall|j: int|
                0 <= j < starts.len() - 1 ==> 0 <= #[trigger] starts[j] < records@.len() && starts[j
                    + 1] == next_start(records@, starts[j]),
            forall|j: int|
                0 <= j < encoded.len() ==> encodes_part(
                    records@,
                    #[trigger] encoded[j],
                    starts[j],
                    starts[j + 1],
                ),
        decreases records@.len() - index,
    {
        let ghost before = starts;
        let ghost encoded_before = encoded;
        let step: usize = match block_journal_packed_group_len(records, index) {
            Some(group_len) => {
                let ghost part = records@.subrange(index as int, index + group_len);
                proof {
                    let chosen = choose|len: int| is_packed_group(records@, index as int, len);
                    lemma_group_unique(records@, index as int, group_len as int, chosen);
                    lemma_group_is_run(records@, index as int, group_len as int);
                    assert forall|i: int| 0 <= i < part.len() implies (
                    #[trigger] part[i])->Write_0.commit_seq.0 >= part[0]->Write_0.commit_seq.0 by {
                        lemma_run_ascends(part, i);
                    }
                }
                let group = vstd::slice::slice_subrange(records, index, index + group_len);
                let packed = match pack_block_journal_writes(group) {
                    Ok(packed) => packed,
                    Err(error) => {
                        proof {
                            assert(packed_slab(records@.subrange(index as int, index + group_len)).len()
                                > u64::MAX);
                        }
                        return Err(
                            StorageError::conflict("packed block journal payload offset overflows"),
                        );
                    },
                };
                let record = BlockJournalRecord::PackedWrites(packed);
                record.encode(out)?;
                proof {
                    lemma_wire_all_push(encoded, record);
                    encoded = encoded.push(record);
                    assert(out@ =~= head + wire_all(encoded));
                }
                group_len
            },
            None => {
                records[index].encode(out)?;
                proof {
                    lemma_wire_all_push(encoded, records@[index as int]);
                    encoded = encoded.push(records@[index as int]);
                    assert(out@ =~= head + wire_all(encoded));
                }
                1
            },
        };
        proof {
            starts = starts.push(index + step);
            assert forall|j: int| 0 <= j < starts.len() - 1 implies 0 <= #[trigger] starts[j]
                < records@.len() && starts[j + 1] == next_start(records@, starts[j]) by {
                if j < before.len() - 1 {
                    assert(starts[j] == before[j]);
                    assert(starts[j + 1] == before[j + 1]);
                } else {
                    assert(starts[j] == index);
                }
            }
            assert forall|j: int| 0 <= j < encoded.len() implies encodes_part(
                records@,
                #[trigger] encoded[j],
                starts[j],
                starts[j + 1],
            ) by {
                if j < encoded_before.len() {
                    assert(encoded[j] == encoded_before[j]);
                    assert(starts[j] == before[j]);
                    assert(starts[j + 1] == before[j + 1]);
                } else {
                    assert(starts[j] == index);
                    assert(starts[j + 1] == index + step);
                }
            }
        }
        index = index + step;
    }
    proof {
        assert(is_cut(records@, starts));
        lemma_cut_unique(records@, starts, counted, starts.len() - 1);
        lemma_cut_unique(records@, counted, starts, counted.len() - 1);
        assert(encodes_records(records@, encoded, starts));
        assert(out@ =~= old(out)@ + (be_bytes(encoded.len(), 8) + wire_all(encoded)));
    }
    Ok(())
}

proof fn lemma_run_ascends(records: Seq<BlockJournalRecord>, i: int)
    requires
        is_run(records),
        0 <= i < records.len(),
    ensures
        records[i]->Write_0.commit_seq.0 >= records[0]->Write_0.commit_seq.0,
    decreases i,
{
    assert(continues_run(records, 0, i));
    if i > 0 {
        lemma_run_ascends(records, i - 1);
    }
}

} // verus!
