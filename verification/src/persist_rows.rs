//! The rows of the durable copy: their keys, which of them an export writes,
//! and which commit each shard was last changed by.
use vstd::prelude::*;
use vstd::string::StringExecFns;

use crate::error::StorageError;
use crate::export_cursor::DurableExportCursor;
use crate::export_rows::OfCommit;
use crate::id::{CommitSeq, DeviceId, FileId, KeyspaceId, SegmentId, ShardId};
use crate::idmap::IdMap;
use crate::metadata_records::{
    DeviceHead, DurableDeviceShardHead, DurableKeyspaceShardHead, FileCommit, KeyspaceCommit,
    KeyspaceHead, ShardCommit,
};
use crate::segment_records::{CatalogEntry, SegmentLifecycleState};
use crate::text::{decimal, digit, is_text, push_decimal};

verus! {

/// How many digits a number has.
fn digits(value: u128) -> (count: usize)
    ensures
        count == decimal(value as nat).len(),
        1 <= count <= 39,
    decreases value,
{
    proof {
        lemma_widest();
        lemma_digits(value as nat, 39);
    }
    if value >= 10 {
        assert((value / 10) as nat == value as nat / 10);
        digits(value / 10) + 1
    } else {
        1
    }
}

/// Ten to a power.
pub open spec fn pow10(exponent: nat) -> nat
    decreases exponent,
{
    if exponent == 0 {
        1
    } else {
        10 * pow10((exponent - 1) as nat)
    }
}

/// A number below a power of ten has no more digits than that.
proof fn lemma_digits(value: nat, most: nat)
    requires
        most >= 1,
        value < pow10(most),
    ensures
        1 <= decimal(value).len() <= most,
    decreases value,
{
    assert(pow10(most) == 10 * pow10((most - 1) as nat));
    if value >= 10 {
        if most == 1 {
            assert(pow10(0) == 1);
        } else {
            lemma_digits(value / 10, (most - 1) as nat);
        }
    }
}

proof fn lemma_widest()
    ensures
        pow10(39) > u128::MAX,
{
    assert(pow10(20) == 100000000000000000000) by {
        reveal_with_fuel(pow10, 21);
    }
    assert(pow10(39) == 10000000000000000000 * pow10(20)) by {
        reveal_with_fuel(pow10, 20);
    }
}

pub open spec fn zeros(count: nat) -> Seq<char> {
    Seq::new(count, |i: int| '0')
}

/// A number in decimal with at least twenty digits, so that keys sort as
/// their numbers do.
pub open spec fn padded(value: nat) -> Seq<char> {
    if decimal(value).len() >= 20 {
        decimal(value)
    } else {
        zeros((20 - decimal(value).len()) as nat) + decimal(value)
    }
}

/// Appends a number with at least twenty digits.
pub fn push_padded(out: &mut String, value: u64)
    ensures
        final(out)@ == old(out)@ + padded(value as nat),
{
    let count: usize = digits(value as u128);
    let mut next: usize = count;
    assert(out@ =~= old(out)@ + zeros(0));
    while next < 20
        invariant
            count <= next,
            next <= 20 || next == count,
            out@ == old(out)@ + zeros((next - count) as nat),
        decreases 20 - next,
    {
        proof {
            reveal_strlit("0");
            assert(out@ + "0"@ =~= old(out)@ + zeros((next + 1 - count) as nat));
        }
        out.append("0");
        next = next + 1;
    }
    push_decimal(out, value as u128);
    assert(out@ =~= old(out)@ + padded(value as nat));
}

/// A padded number and one or two plain ones, with colons between.
pub open spec fn key_text(first: u64, second: u128, third: Option<u128>) -> Seq<char> {
    let head = padded(first as nat) + ":"@ + decimal(second as nat);
    match third {
        Some(third) => head + ":"@ + decimal(third as nat),
        None => head,
    }
}

fn row_key_of(first: u64, second: u128, third: Option<u128>) -> (key: String)
    ensures
        key@ == key_text(first, second, third),
{
    let mut key = String::new();
    push_padded(&mut key, first);
    key.append(":");
    push_decimal(&mut key, second);
    if let Some(third) = third {
        key.append(":");
        push_decimal(&mut key, third);
    }
    assert(key@ =~= key_text(first, second, third));
    key
}

/// A row that stands in the order of its commit.
pub trait DurableTimelineRow: OfCommit {
    spec fn key_of(&self) -> Seq<char>;

    fn row_key(&self) -> (key: String)
        ensures
            key@ == self.key_of(),
    ;
}

impl DurableTimelineRow for ShardCommit {
    open spec fn key_of(&self) -> Seq<char> {
        key_text(self.commit_seq.0, self.device_id.0, Some(self.shard_id.0 as u128))
    }

    fn row_key(&self) -> (key: String) {
        row_key_of(self.commit_seq.0, self.device_id.0, Some(self.shard_id.0 as u128))
    }
}

impl DurableTimelineRow for KeyspaceCommit {
    open spec fn key_of(&self) -> Seq<char> {
        key_text(self.commit_seq.0, self.keyspace_id.0, None)
    }

    fn row_key(&self) -> (key: String) {
        row_key_of(self.commit_seq.0, self.keyspace_id.0, None)
    }
}

impl DurableTimelineRow for FileCommit {
    open spec fn key_of(&self) -> Seq<char> {
        key_text(self.commit_seq.0, self.keyspace_id.0, Some(self.file_id.0))
    }

    fn row_key(&self) -> (key: String) {
        row_key_of(self.commit_seq.0, self.keyspace_id.0, Some(self.file_id.0))
    }
}

pub fn block_delta_row_key(commit_seq: CommitSeq, device_id: DeviceId) -> (key: String)
    ensures
        key@ == key_text(commit_seq.0, device_id.0, None),
{
    row_key_of(commit_seq.0, device_id.0, None)
}

pub fn native_file_delta_row_key(
    commit_seq: CommitSeq,
    keyspace_id: KeyspaceId,
    file_id: FileId,
) -> (key: String)
    ensures
        key@ == key_text(commit_seq.0, keyspace_id.0, Some(file_id.0)),
{
    row_key_of(commit_seq.0, keyspace_id.0, Some(file_id.0))
}

/// The key of one shard of something.
pub open spec fn shard_key(owner: u128, shard: u32) -> Seq<char> {
    decimal(owner as nat) + ":"@ + padded(shard as nat)
}

fn shard_key_of(owner: u128, shard: u32) -> (key: String)
    ensures
        key@ == shard_key(owner, shard),
{
    let mut key = String::new();
    push_decimal(&mut key, owner);
    key.append(":");
    push_padded(&mut key, shard as u64);
    assert(key@ =~= shard_key(owner, shard));
    key
}

pub fn device_shard_row_key(device_id: DeviceId, shard_id: ShardId) -> (key: String)
    ensures
        key@ == shard_key(device_id.0, shard_id.0),
{
    shard_key_of(device_id.0, shard_id.0)
}

pub fn keyspace_shard_row_key(keyspace_id: KeyspaceId, shard_index: u32) -> (key: String)
    ensures
        key@ == shard_key(keyspace_id.0, shard_index),
{
    shard_key_of(keyspace_id.0, shard_index)
}

proof fn lemma_digit_chars(value: nat, i: int)
    requires
        0 <= i < decimal(value).len(),
    ensures
        decimal(value)[i] != ':',
    decreases value,
{
    if value >= 10 && i < decimal(value).len() - 1 {
        lemma_digit_chars(value / 10, i);
    }
}

/// Different numbers are written differently.
pub proof fn law_decimal_tells_numbers_apart(a: nat, b: nat)
    requires
        decimal(a) == decimal(b),
    ensures
        a == b,
    decreases a,
{
    if a < 10 && b < 10 {
        assert(decimal(a)[0] == digit(a as int));
        assert(decimal(b)[0] == digit(b as int));
    } else if a >= 10 && b >= 10 {
        let left = decimal(a / 10);
        let right = decimal(b / 10);
        assert(decimal(a).drop_last() =~= left);
        assert(decimal(b).drop_last() =~= right);
        law_decimal_tells_numbers_apart(a / 10, b / 10);
        assert(decimal(a).last() == digit((a % 10) as int));
        assert(decimal(b).last() == digit((b % 10) as int));
    } else if a >= 10 {
        lemma_some_digits(a / 10);
        assert(decimal(a).len() == decimal(a / 10).len() + 1);
    } else {
        lemma_some_digits(b / 10);
        assert(decimal(b).len() == decimal(b / 10).len() + 1);
    }
}

proof fn lemma_some_digits(value: nat)
    ensures
        decimal(value).len() >= 1,
    decreases value,
{
    if value >= 10 {
        lemma_some_digits(value / 10);
    }
}

/// Rows of different shards have different keys.
pub proof fn law_shard_keys_differ(owner: u128, shard: u32, other_owner: u128, other_shard: u32)
    requires
        shard_key(owner, shard) == shard_key(other_owner, other_shard),
    ensures
        owner == other_owner,
        shard == other_shard,
{
    let a = decimal(owner as nat);
    let b = decimal(other_owner as nat);
    let left = shard_key(owner, shard);
    let right = shard_key(other_owner, other_shard);
    reveal_strlit(":");
    assert(left[a.len() as int] == ':');
    assert(right[b.len() as int] == ':');
    if a.len() < b.len() {
        assert(right[a.len() as int] == b[a.len() as int]);
        lemma_digit_chars(other_owner as nat, a.len() as int);
    } else if b.len() < a.len() {
        assert(left[b.len() as int] == a[b.len() as int]);
        lemma_digit_chars(owner as nat, b.len() as int);
    }
    assert(a =~= left.take(a.len() as int));
    assert(b =~= right.take(b.len() as int));
    law_decimal_tells_numbers_apart(owner as nat, other_owner as nat);
    let tail = padded(shard as nat);
    let other_tail = padded(other_shard as nat);
    assert(tail =~= left.skip((a.len() + 1) as int));
    assert(other_tail =~= right.skip((b.len() + 1) as int));
    lemma_padded_apart(shard as nat, other_shard as nat);
}

proof fn lemma_padded_apart(a: nat, b: nat)
    requires
        padded(a) == padded(b),
        a <= u32::MAX,
        b <= u32::MAX,
    ensures
        a == b,
{
    assert(pow10(10) > u32::MAX) by {
        reveal_with_fuel(pow10, 11);
    }
    lemma_digits(a, 10);
    lemma_digits(b, 10);
    let left = decimal(a);
    let right = decimal(b);
    if left.len() == right.len() {
        assert(left =~= padded(a).skip(20 - left.len()));
        assert(right =~= padded(b).skip(20 - right.len()));
        law_decimal_tells_numbers_apart(a, b);
    } else if left.len() < right.len() {
        lemma_leading_digit(b);
        assert(padded(b)[20 - right.len()] == right[0]);
        assert(padded(a)[20 - right.len()] == '0');
    } else {
        lemma_leading_digit(a);
        assert(padded(a)[20 - left.len()] == left[0]);
        assert(padded(b)[20 - left.len()] == '0');
    }
}

/// A number in decimal with as many digits as asked for.
pub open spec fn fixed(value: nat, width: nat) -> Seq<char>
    decreases width,
{
    if width == 0 {
        seq![]
    } else {
        fixed(value / 10, (width - 1) as nat).push(digit((value % 10) as int))
    }
}

proof fn lemma_fixed(value: nat, width: nat)
    requires
        value < pow10(width),
    ensures
        fixed(value, width).len() == width,
        width > 0 ==> decimal(value).len() <= width && fixed(value, width) == zeros(
            (width - decimal(value).len()) as nat,
        ) + decimal(value),
    decreases width,
{
    if width > 0 {
        let rest = (width - 1) as nat;
        assert(pow10(width) == 10 * pow10(rest));
        lemma_fixed(value / 10, rest);
        lemma_digits(value, width);
        if value >= 10 {
            if rest == 0 {
                assert(pow10(0) == 1);
            }
            assert(fixed(value, width) =~= zeros((width - decimal(value).len()) as nat) + decimal(
                value,
            ));
        } else {
            assert(value / 10 == 0);
            lemma_fixed_zero(rest);
            assert(fixed(value, width) =~= zeros((width - decimal(value).len()) as nat) + decimal(
                value,
            ));
        }
    }
}

proof fn lemma_fixed_zero(width: nat)
    ensures
        fixed(0, width) == zeros(width),
    decreases width,
{
    if width > 0 {
        lemma_fixed_zero((width - 1) as nat);
    }
    assert(fixed(0, width) =~= zeros(width));
}

/// Whether a text comes before another of its length: the first character in which
/// they differ is the smaller one.
pub open spec fn text_before(left: Seq<char>, right: Seq<char>) -> bool {
    exists|at: int|
        0 <= at < left.len() && at < right.len() && left.take(at) == right.take(at) && (
        #[trigger] left[at]) < right[at]
}

proof fn lemma_fixed_order(a: nat, b: nat, width: nat)
    requires
        a < b < pow10(width),
    ensures
        text_before(fixed(a, width), fixed(b, width)),
    decreases width,
{
    if width == 0 {
        assert(pow10(0) == 1);
    } else {
        let rest = (width - 1) as nat;
        assert(pow10(width) == 10 * pow10(rest));
        lemma_fixed(a / 10, rest);
        lemma_fixed(b / 10, rest);
        let left = fixed(a, width);
        let right = fixed(b, width);
        let left_rest = fixed(a / 10, rest);
        let right_rest = fixed(b / 10, rest);
        if a / 10 < b / 10 {
            lemma_fixed_order(a / 10, b / 10, rest);
            let at = choose|at: int|
                0 <= at < left_rest.len() && at < right_rest.len() && left_rest.take(at)
                    == right_rest.take(at) && (#[trigger] left_rest[at]) < right_rest[at];
            assert(left.take(at) =~= left_rest.take(at));
            assert(right.take(at) =~= right_rest.take(at));
            assert(left[at] < right[at]);
        } else {
            let at = rest as int;
            assert(left.take(at) =~= left_rest);
            assert(right.take(at) =~= right_rest);
            assert(a % 10 < b % 10);
            assert(left[at] < right[at]);
        }
    }
}

proof fn lemma_padded_fixed(value: u64)
    ensures
        padded(value as nat) == fixed(value as nat, 20),
        padded(value as nat).len() == 20,
        value < pow10(20),
{
    assert(pow10(20) > u64::MAX) by {
        reveal_with_fuel(pow10, 21);
    }
    lemma_fixed(value as nat, 20);
    assert(padded(value as nat) =~= fixed(value as nat, 20));
}

/// Rows of a timeline sort by their commits: the key of an earlier commit comes
/// before the key of a later one, whatever else is in them.
pub proof fn law_keys_sort_by_commit(
    first: u64,
    second: u128,
    third: Option<u128>,
    other_first: u64,
    other_second: u128,
    other_third: Option<u128>,
)
    requires
        first < other_first,
    ensures
        text_before(
            key_text(first, second, third),
            key_text(other_first, other_second, other_third),
        ),
{
    let left = padded(first as nat);
    let right = padded(other_first as nat);
    lemma_padded_fixed(first);
    lemma_padded_fixed(other_first);
    lemma_fixed_order(first as nat, other_first as nat, 20);
    let at = choose|at: int|
        0 <= at < left.len() && at < right.len() && left.take(at) == right.take(at) && (
        #[trigger] left[at]) < right[at];
    let key = key_text(first, second, third);
    let other = key_text(other_first, other_second, other_third);
    assert(key.take(at) =~= left.take(at));
    assert(other.take(at) =~= right.take(at));
    assert(key[at] < other[at]);
}

/// Rows of a timeline that differ in what they are of have different keys.
pub proof fn law_timeline_keys_differ(
    first: u64,
    second: u128,
    third: Option<u128>,
    other_first: u64,
    other_second: u128,
    other_third: Option<u128>,
)
    requires
        key_text(first, second, third) == key_text(other_first, other_second, other_third),
    ensures
        first == other_first,
        second == other_second,
        third == other_third,
{
    reveal_strlit(":");
    let key = key_text(first, second, third);
    let other = key_text(other_first, other_second, other_third);
    lemma_padded_fixed(first);
    lemma_padded_fixed(other_first);
    if first < other_first {
        lemma_fixed_order(first as nat, other_first as nat, 20);
        assert(key.take(20) =~= padded(first as nat));
        assert(other.take(20) =~= padded(other_first as nat));
    } else if other_first < first {
        lemma_fixed_order(other_first as nat, first as nat, 20);
        assert(key.take(20) =~= padded(first as nat));
        assert(other.take(20) =~= padded(other_first as nat));
    }
    let tail = key.skip(21);
    let other_tail = other.skip(21);
    let a = decimal(second as nat);
    let b = decimal(other_second as nat);
    let a_end = match third {
        Some(third) => ":"@ + decimal(third as nat),
        None => seq![],
    };
    let b_end = match other_third {
        Some(third) => ":"@ + decimal(third as nat),
        None => seq![],
    };
    assert(tail =~= a + a_end);
    assert(other_tail =~= b + b_end);
    if a.len() < b.len() {
        lemma_digit_chars(other_second as nat, a.len() as int);
        assert(tail.len() > a.len());
        assert(tail[a.len() as int] == ':');
        assert(other_tail[a.len() as int] == b[a.len() as int]);
    } else if b.len() < a.len() {
        lemma_digit_chars(second as nat, b.len() as int);
        assert(other_tail.len() > b.len());
        assert(other_tail[b.len() as int] == ':');
        assert(tail[b.len() as int] == a[b.len() as int]);
    }
    assert(a =~= tail.take(a.len() as int));
    assert(b =~= other_tail.take(b.len() as int));
    law_decimal_tells_numbers_apart(second as nat, other_second as nat);
    assert(a_end =~= tail.skip(a.len() as int));
    assert(b_end =~= other_tail.skip(b.len() as int));
    match (third, other_third) {
        (Some(third), Some(other_third)) => {
            assert(decimal(third as nat) =~= a_end.skip(1));
            assert(decimal(other_third as nat) =~= b_end.skip(1));
            law_decimal_tells_numbers_apart(third as nat, other_third as nat);
        },
        (Some(third), None) => {
            assert(a_end.len() > 0);
        },
        (None, Some(third)) => {
            assert(b_end.len() > 0);
        },
        (None, None) => {},
    }
}

/// A number of more than one digit does not begin with zero.
proof fn lemma_leading_digit(value: nat)
    ensures
        decimal(value).len() >= 1,
        decimal(value).len() > 1 ==> decimal(value)[0] != '0',
        value >= 1 ==> decimal(value)[0] != '0',
    decreases value,
{
    if value >= 10 {
        lemma_leading_digit(value / 10);
        assert(decimal(value)[0] == decimal(value / 10)[0]);
    }
}

/// The last commit of a shard of a device.
pub open spec fn shard_latest(
    commits: Seq<ShardCommit>,
    device_id: DeviceId,
    shard_id: ShardId,
) -> CommitSeq
    decreases commits.len(),
{
    if commits.len() == 0 {
        CommitSeq(0)
    } else {
        let before = shard_latest(commits.drop_last(), device_id, shard_id);
        let last = commits.last();
        if last.device_id == device_id && last.shard_id == shard_id && last.commit_seq.0
            > before.0 {
            last.commit_seq
        } else {
            before
        }
    }
}

/// Whether some commit is of a device.
pub open spec fn has_commit(commits: Seq<ShardCommit>, device_id: DeviceId) -> bool {
    exists|i: int| 0 <= i < commits.len() && (#[trigger] commits[i]).device_id == device_id
}

fn find_shard_latest(commits: &Vec<ShardCommit>, device_id: DeviceId, shard_id: ShardId) -> (latest:
    CommitSeq)
    ensures
        latest == shard_latest(commits@, device_id, shard_id),
{
    let mut latest = CommitSeq(0);
    let mut next: usize = 0;
    assert(commits@.take(0) =~= Seq::empty());
    while next < commits.len()
        invariant
            next <= commits@.len(),
            latest == shard_latest(commits@.take(next as int), device_id, shard_id),
        decreases commits@.len() - next,
    {
        let commit = commits[next];
        assert(commits@.take(next + 1).drop_last() =~= commits@.take(next as int));
        if commit.device_id.0 == device_id.0 && commit.shard_id.0 == shard_id.0
            && commit.commit_seq.0 > latest.0 {
            latest = commit.commit_seq;
        }
        next = next + 1;
    }
    assert(commits@.take(next as int) =~= commits@);
    latest
}

fn finds_commit(commits: &Vec<ShardCommit>, device_id: DeviceId) -> (found: bool)
    ensures
        found == has_commit(commits@, device_id),
{
    let mut next: usize = 0;
    while next < commits.len()
        invariant
            next <= commits@.len(),
            forall|i: int| 0 <= i < next ==> (#[trigger] commits@[i]).device_id != device_id,
        decreases commits@.len() - next,
    {
        if commits[next].device_id.0 == device_id.0 {
            assert(commits@[next as int].device_id == device_id);
            return true;
        }
        next = next + 1;
    }
    false
}

/// The row of one shard of a device: a device without commits, such as a
/// fork, has its shards from its own last commit.
pub open spec fn shard_row(head: DeviceHead, commits: Seq<ShardCommit>, shard: int) -> DurableDeviceShardHead {
    DurableDeviceShardHead {
        device_id: head.device_id,
        shard_id: ShardId(shard as u32),
        root: head.shard_roots@[shard],
        generation: head.generation,
        latest_commit: if has_commit(commits, head.device_id) {
            shard_latest(commits, head.device_id, ShardId(shard as u32))
        } else {
            head.latest_commit
        },
    }
}

/// The rows of the shards of a device.
pub fn device_shard_rows(head: &DeviceHead, commits: &Vec<ShardCommit>) -> (result: Result<
    Vec<DurableDeviceShardHead>,
    StorageError,
>)
    ensures
        result is Ok <==> head.shard_roots@.len() <= u32::MAX + 1,
        result matches Ok(rows) ==> rows@.len() == head.shard_roots@.len() && forall|i: int|
            0 <= i < rows@.len() ==> (#[trigger] rows@[i]) == shard_row(*head, commits@, i),
        result matches Err(error) ==> error is InvalidArgument,
{
    let committed = finds_commit(commits, head.device_id);
    let mut rows: Vec<DurableDeviceShardHead> = Vec::new();
    let mut next: usize = 0;
    while next < head.shard_roots.len()
        invariant
            next <= head.shard_roots@.len(),
            next <= u32::MAX + 1,
            rows@.len() == next,
            committed == has_commit(commits@, head.device_id),
            forall|i: int|
                0 <= i < rows@.len() ==> (#[trigger] rows@[i]) == shard_row(*head, commits@, i),
        decreases head.shard_roots@.len() - next,
    {
        if next as u64 > u32::MAX as u64 {
            return Err(StorageError::invalid_argument("device shard index overflows u32"));
        }
        let shard_id = ShardId(next as u32);
        let latest_commit = if committed {
            find_shard_latest(commits, head.device_id, shard_id)
        } else {
            head.latest_commit
        };
        rows.push(
            DurableDeviceShardHead {
                device_id: head.device_id,
                shard_id,
                root: head.shard_roots[next],
                generation: head.generation,
                latest_commit,
            },
        );
        next = next + 1;
    }
    Ok(rows)
}

/// The last commit of a shard of a keyspace.
pub open spec fn keyspace_shard_latest(
    commits: Seq<KeyspaceCommit>,
    keyspace_id: KeyspaceId,
    shard_index: u32,
) -> Option<CommitSeq>
    decreases commits.len(),
{
    if commits.len() == 0 {
        None
    } else {
        let before = keyspace_shard_latest(commits.drop_last(), keyspace_id, shard_index);
        let last = commits.last();
        if last.keyspace_id == keyspace_id && last.shard_index == shard_index && (
        before matches Some(seq) ==> last.commit_seq.0 > seq.0) {
            Some(last.commit_seq)
        } else {
            before
        }
    }
}

/// Whether some commit is of a keyspace.
pub open spec fn has_keyspace_commit(
    commits: Seq<KeyspaceCommit>,
    keyspace_id: KeyspaceId,
) -> bool {
    exists|i: int| 0 <= i < commits.len() && (#[trigger] commits[i]).keyspace_id == keyspace_id
}

fn find_keyspace_shard_latest(
    commits: &Vec<KeyspaceCommit>,
    keyspace_id: KeyspaceId,
    shard_index: u32,
) -> (latest: Option<CommitSeq>)
    ensures
        latest == keyspace_shard_latest(commits@, keyspace_id, shard_index),
{
    let mut latest: Option<CommitSeq> = None;
    let mut next: usize = 0;
    assert(commits@.take(0) =~= Seq::empty());
    while next < commits.len()
        invariant
            next <= commits@.len(),
            latest == keyspace_shard_latest(commits@.take(next as int), keyspace_id, shard_index),
        decreases commits@.len() - next,
    {
        let commit = commits[next];
        assert(commits@.take(next + 1).drop_last() =~= commits@.take(next as int));
        if commit.keyspace_id.0 == keyspace_id.0 && commit.shard_index == shard_index {
            let newer = match latest {
                Some(seq) => commit.commit_seq.0 > seq.0,
                None => true,
            };
            if newer {
                latest = Some(commit.commit_seq);
            }
        }
        next = next + 1;
    }
    assert(commits@.take(next as int) =~= commits@);
    latest
}

fn finds_keyspace_commit(commits: &Vec<KeyspaceCommit>, keyspace_id: KeyspaceId) -> (found: bool)
    ensures
        found == has_keyspace_commit(commits@, keyspace_id),
{
    let mut next: usize = 0;
    while next < commits.len()
        invariant
            next <= commits@.len(),
            forall|i: int| 0 <= i < next ==> (#[trigger] commits@[i]).keyspace_id != keyspace_id,
        decreases commits@.len() - next,
    {
        if commits[next].keyspace_id.0 == keyspace_id.0 {
            assert(commits@[next as int].keyspace_id == keyspace_id);
            return true;
        }
        next = next + 1;
    }
    false
}

/// The row of one shard of a keyspace.
pub open spec fn keyspace_shard_row(
    head: KeyspaceHead,
    commits: Seq<KeyspaceCommit>,
    shard: int,
) -> DurableKeyspaceShardHead {
    DurableKeyspaceShardHead {
        keyspace_id: head.keyspace_id,
        shard_index: shard as u32,
        root: head.shard_roots@[shard],
        generation: head.generation,
        latest_commit: match keyspace_shard_latest(commits, head.keyspace_id, shard as u32) {
            Some(seq) => seq,
            None => if has_keyspace_commit(commits, head.keyspace_id) {
                CommitSeq(0)
            } else {
                head.latest_commit
            },
        },
    }
}

/// The rows of the first shards of a keyspace. A write that only adds to the
/// durable copy leaves out shards that no commit touched.
pub open spec fn keyspace_shard_rows_of(
    head: KeyspaceHead,
    commits: Seq<KeyspaceCommit>,
    prune_missing: bool,
    count: nat,
) -> Seq<DurableKeyspaceShardHead>
    decreases count,
{
    if count == 0 {
        Seq::empty()
    } else {
        let before = keyspace_shard_rows_of(head, commits, prune_missing, (count - 1) as nat);
        if !prune_missing && has_keyspace_commit(commits, head.keyspace_id)
            && keyspace_shard_latest(commits, head.keyspace_id, (count - 1) as u32) is None {
            before
        } else {
            before.push(keyspace_shard_row(head, commits, count - 1))
        }
    }
}

/// The rows of the shards of a keyspace.
pub fn keyspace_shard_rows(
    head: &KeyspaceHead,
    commits: &Vec<KeyspaceCommit>,
    prune_missing: bool,
) -> (result: Result<Vec<DurableKeyspaceShardHead>, StorageError>)
    ensures
        result is Ok <==> head.shard_roots@.len() <= u32::MAX + 1,
        result matches Ok(rows) ==> rows@ == keyspace_shard_rows_of(
            *head,
            commits@,
            prune_missing,
            head.shard_roots@.len(),
        ),
        result matches Err(error) ==> error is InvalidArgument,
{
    let committed = finds_keyspace_commit(commits, head.keyspace_id);
    let mut rows: Vec<DurableKeyspaceShardHead> = Vec::new();
    let mut next: usize = 0;
    while next < head.shard_roots.len()
        invariant
            next <= head.shard_roots@.len(),
            next <= u32::MAX + 1,
            committed == has_keyspace_commit(commits@, head.keyspace_id),
            rows@ == keyspace_shard_rows_of(*head, commits@, prune_missing, next as nat),
        decreases head.shard_roots@.len() - next,
    {
        if next as u64 > u32::MAX as u64 {
            return Err(StorageError::invalid_argument("keyspace shard index overflows u32"));
        }
        let shard_index: u32 = next as u32;
        let latest = find_keyspace_shard_latest(commits, head.keyspace_id, shard_index);
        let latest_commit = match latest {
            Some(seq) => seq,
            None => if committed {
                CommitSeq(0)
            } else {
                head.latest_commit
            },
        };
        if prune_missing || !committed || latest.is_some() {
            rows.push(
                DurableKeyspaceShardHead {
                    keyspace_id: head.keyspace_id,
                    shard_index,
                    root: head.shard_roots[next],
                    generation: head.generation,
                    latest_commit,
                },
            );
        }
        next = next + 1;
    }
    Ok(rows)
}

/// Whether an export rewrites the history that the durable copy holds: it
/// does the first time and after a sweep.
pub fn prunes_history(previous: Option<&DurableExportCursor>, next_gc_epoch: u64) -> (prunes: bool)
    ensures
        prunes == match previous {
            Some(cursor) => cursor.next_gc_epoch != next_gc_epoch,
            None => true,
        },
{
    match previous {
        Some(cursor) => cursor.next_gc_epoch != next_gc_epoch,
        None => true,
    }
}

fn larger_u128(a: u128, b: u128) -> (max: u128)
    ensures
        max == if a < b {
            b
        } else {
            a
        },
{
    if a < b {
        b
    } else {
        a
    }
}

/// The cursor after a write of stream records: only the numbers that such a
/// write uses up move on, and none moves back.
pub fn stream_prefix_persist_cursor(
    previous: Option<&DurableExportCursor>,
    current: &DurableExportCursor,
) -> (cursor: DurableExportCursor)
    ensures
        previous is None ==> cursor == *current,
        previous matches Some(before) ==> cursor == (DurableExportCursor {
            config: current.config,
            next_write_intent: if before.next_write_intent < current.next_write_intent {
                current.next_write_intent
            } else {
                before.next_write_intent
            },
            next_extent_id: if before.next_extent_id < current.next_extent_id {
                current.next_extent_id
            } else {
                before.next_extent_id
            },
            next_segment_id: if before.next_segment_id < current.next_segment_id {
                current.next_segment_id
            } else {
                before.next_segment_id
            },
            next_placement_index: if before.next_placement_index < current.next_placement_index {
                current.next_placement_index
            } else {
                before.next_placement_index
            },
            ..*before
        }),
{
    match previous {
        None => *current,
        Some(before) => {
            let mut cursor = *before;
            cursor.config = current.config;
            cursor.next_write_intent = larger_u128(
                before.next_write_intent,
                current.next_write_intent,
            );
            cursor.next_extent_id = larger_u128(before.next_extent_id, current.next_extent_id);
            cursor.next_segment_id = larger_u128(before.next_segment_id, current.next_segment_id);
            if cursor.next_placement_index < current.next_placement_index {
                cursor.next_placement_index = current.next_placement_index;
            }
            cursor
        },
    }
}

/// A catalog entry as it is written before the metadata that refers to its
/// segment: such a segment is not referenced yet.
pub fn pre_root_catalog_entry(
    segment_id: SegmentId,
    entry: CatalogEntry,
    pre_root_pending_segments: &IdMap<()>,
) -> (written: CatalogEntry)
    ensures
        written == if pre_root_pending_segments@.contains_key(segment_id.0) && entry.state
            == SegmentLifecycleState::Referenced {
            CatalogEntry { state: SegmentLifecycleState::DurablePendingMetadata, ..entry }
        } else {
            entry
        },
{
    if pre_root_pending_segments.contains_key(segment_id.0) && entry.state
        == SegmentLifecycleState::Referenced {
        let mut pending = entry;
        pending.state = SegmentLifecycleState::DurablePendingMetadata;
        pending
    } else {
        entry
    }
}

/// Whether a table is one of a storage node's catalog.
pub fn is_node_catalog_table(table: &str) -> (known: bool)
    ensures
        known == (table@ == "node_meta"@ || table@ == "data_logs"@ || table@
            == "segment_placements"@ || table@ == "segment_catalog_entries"@),
{
    is_text(table, "node_meta") || is_text(table, "data_logs") || is_text(table, "segment_placements")
        || is_text(table, "segment_catalog_entries")
}

} // verus!
