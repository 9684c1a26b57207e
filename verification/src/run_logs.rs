//! The logs that append streams write their payload to.
use vstd::prelude::*;

use crate::block_api::{ByteRange, ReadVerification};
use crate::error::StorageError;
use crate::id::StorageNodeId;
use crate::integrity::{
    integrity_matches, policy_allows, verify_read_integrity_policy,
    verify_segment_payload_integrity,
};
use crate::metadata_records::SegmentPayloadIntegrity;
use crate::read_plan::{log_part_backed, RunLogMap};

verus! {

pub struct AppendRunLog {
    pub storage_node: StorageNodeId,
    pub log_id: u64,
    pub bytes: Vec<u8>,
}

/// The run logs of a store; no two have the same node and number.
pub struct AppendRunLogs {
    logs: Vec<AppendRunLog>,
}

spec fn has_log(logs: Seq<AppendRunLog>, key: (StorageNodeId, u64)) -> bool {
    exists|i: int|
        0 <= i < logs.len() && (#[trigger] logs[i]).storage_node == key.0 && logs[i].log_id == key.1
}

spec fn log_index(logs: Seq<AppendRunLog>, key: (StorageNodeId, u64)) -> int {
    choose|i: int|
        0 <= i < logs.len() && (#[trigger] logs[i]).storage_node == key.0 && logs[i].log_id == key.1
}

spec fn distinct(logs: Seq<AppendRunLog>) -> bool {
    forall|i: int, j: int|
        0 <= i < j < logs.len() ==> (#[trigger] logs[i]).storage_node != (
        #[trigger] logs[j]).storage_node || logs[i].log_id != logs[j].log_id
}

spec fn log_contents(logs: Seq<AppendRunLog>) -> RunLogMap {
    Map::new(
        |key: (StorageNodeId, u64)| has_log(logs, key),
        |key: (StorageNodeId, u64)| logs[log_index(logs, key)].bytes@,
    )
}

proof fn lemma_log_at(logs: Seq<AppendRunLog>, i: int)
    requires
        distinct(logs),
        0 <= i < logs.len(),
    ensures
        log_contents(logs).contains_key((logs[i].storage_node, logs[i].log_id)),
        log_contents(logs)[(logs[i].storage_node, logs[i].log_id)] == logs[i].bytes@,
{
    let key = (logs[i].storage_node, logs[i].log_id);
    assert(has_log(logs, key));
    let j = log_index(logs, key);
    assert(logs[j].storage_node == key.0 && logs[j].log_id == key.1);
    assert(j == i) by {
        if i < j {
            assert(logs[i].storage_node != logs[j].storage_node || logs[i].log_id
                != logs[j].log_id);
        } else if j < i {
            assert(logs[j].storage_node != logs[i].storage_node || logs[j].log_id
                != logs[i].log_id);
        }
    }
}

/// Whether a log is one of a list, not before a place.
spec fn from_list(logs: Seq<AppendRunLog>, log: AppendRunLog, from: int) -> bool {
    exists|j: int| from <= j < logs.len() && #[trigger] logs[j] == log
}

proof fn lemma_from_list(logs: Seq<AppendRunLog>, log: AppendRunLog, from: int)
    requires
        from_list(logs, log, from),
        from > 0,
    ensures
        from_list(logs, log, from - 1),
{
    let j = choose|j: int| from <= j < logs.len() && #[trigger] logs[j] == log;
    assert(logs[j] == log);
}

fn is_listed(keep: &Vec<(StorageNodeId, u64)>, storage_node: StorageNodeId, log_id: u64) -> (listed:
    bool)
    ensures
        listed == keep@.contains((storage_node, log_id)),
{
    let mut next: usize = 0;
    while next < keep.len()
        invariant
            next <= keep@.len(),
            forall|i: int| 0 <= i < next ==> #[trigger] keep@[i] != (storage_node, log_id),
        decreases keep@.len() - next,
    {
        if keep[next].0.0 == storage_node.0 && keep[next].1 == log_id {
            assert(keep@[next as int] == (storage_node, log_id));
            return true;
        }
        next = next + 1;
    }
    false
}

impl View for AppendRunLogs {
    type V = RunLogMap;

    closed spec fn view(&self) -> RunLogMap {
        log_contents(self.logs@)
    }
}

/// Whether every log has only grown.
pub open spec fn keeps_logs(before: RunLogMap, after: RunLogMap) -> bool {
    forall|key: (StorageNodeId, u64)| #[trigger]
        before.contains_key(key) ==> after.contains_key(key) && before[key].is_prefix_of(after[key])
}

/// What is in the logs stays in them while they grow.
pub proof fn lemma_part_kept(
    before: RunLogMap,
    after: RunLogMap,
    storage_node: StorageNodeId,
    log_id: u64,
    offset: int,
    len: int,
    integrity: SegmentPayloadIntegrity,
)
    requires
        keeps_logs(before, after),
        0 <= offset,
        0 <= len,
        log_part_backed(before, storage_node, log_id, offset, len, integrity),
    ensures
        log_part_backed(after, storage_node, log_id, offset, len, integrity),
        after[(storage_node, log_id)].subrange(offset, offset + len) == before[(
            storage_node,
            log_id,
        )].subrange(offset, offset + len),
{
    let key = (storage_node, log_id);
    assert(before.contains_key(key));
    assert(after[key].subrange(offset, offset + len) =~= before[key].subrange(
        offset,
        offset + len,
    ));
}

impl AppendRunLogs {
    #[verifier::type_invariant]
    spec fn wf(&self) -> bool {
        distinct(self.logs@)
    }

    pub fn new() -> (logs: AppendRunLogs)
        ensures
            logs@ == RunLogMap::empty(),
    {
        let logs = AppendRunLogs { logs: Vec::new() };
        assert(logs@ =~= RunLogMap::empty());
        logs
    }

    /// The log that stands at a place of the list of logs.
    pub closed spec fn key_at(&self, index: int) -> (StorageNodeId, u64) {
        (self.logs@[index].storage_node, self.logs@[index].log_id)
    }

    /// One log with its bytes, or nothing past the last.
    pub fn log_at(&self, index: usize) -> (found: Option<(StorageNodeId, u64, &Vec<u8>)>)
        ensures
            found matches Some((storage_node, log_id, bytes)) ==> {
                &&& (storage_node, log_id) == self.key_at(index as int)
                &&& self@.contains_key((storage_node, log_id))
                &&& self@[(storage_node, log_id)] == bytes@
            },
            found is None ==> forall|key: (StorageNodeId, u64)| #[trigger]
                self@.contains_key(key) ==> exists|i: int|
                    0 <= i < index && #[trigger] self.key_at(i) == key,
    {
        proof {
            use_type_invariant(self);
        }
        if index >= self.logs.len() {
            proof {
                assert forall|key: (StorageNodeId, u64)| #[trigger] self@.contains_key(
                    key,
                ) implies exists|i: int| 0 <= i < index && #[trigger] self.key_at(i) == key by {
                    let i = log_index(self.logs@, key);
                    assert(self.key_at(i) == key);
                }
            }
            return None;
        }
        proof {
            lemma_log_at(self.logs@, index as int);
        }
        let log = &self.logs[index];
        Some((log.storage_node, log.log_id, &log.bytes))
    }

    /// Drops every log that is not listed.
    pub fn retain(&mut self, keep: &Vec<(StorageNodeId, u64)>)
        ensures
            forall|key: (StorageNodeId, u64)| #[trigger]
                final(self)@.contains_key(key) <==> old(self)@.contains_key(key)
                    && keep@.contains(key),
            forall|key: (StorageNodeId, u64)| #[trigger]
                final(self)@.contains_key(key) ==> final(self)@[key] == old(self)@[key],
    {
        proof {
            use_type_invariant(&*self);
        }
        let ghost before = self.logs@;
        let mut logs: Vec<AppendRunLog> = Vec::new();
        core::mem::swap(&mut self.logs, &mut logs);
        let mut kept: Vec<AppendRunLog> = Vec::new();
        assert(before.take(before.len() as int) =~= before);
        while logs.len() > 0
            invariant
                logs@ == before.take(logs@.len() as int),
                logs@.len() <= before.len(),
                distinct(before),
                distinct(kept@),
                forall|i: int|
                    0 <= i < kept@.len() ==> keep@.contains(
                        ((#[trigger] kept@[i]).storage_node, kept@[i].log_id),
                    ) && from_list(before, kept@[i], logs@.len() as int),
                forall|j: int|
                    logs@.len() <= j < before.len() && keep@.contains(
                        ((#[trigger] before[j]).storage_node, before[j].log_id),
                    ) ==> kept@.contains(before[j]),
            decreases logs@.len(),
        {
            let ghost then = kept@;
            let ghost left = logs@.len() as int;
            match logs.pop() {
                Some(log) => {
                    assert(log == before[left - 1]);
                    assert(logs@ =~= before.take(left - 1));
                    assert forall|i: int| 0 <= i < then.len() implies from_list(
                        before,
                        #[trigger] then[i],
                        left - 1,
                    ) by {
                        assert(from_list(before, then[i], left));
                        lemma_from_list(before, then[i], left);
                    }
                    let wanted = is_listed(keep, log.storage_node, log.log_id);
                    if wanted {
                        proof {
                            assert forall|i: int| 0 <= i < then.len() implies (
                            #[trigger] then[i]).storage_node != log.storage_node || then[i].log_id
                                != log.log_id by {
                                assert(from_list(before, then[i], left));
                                let j = choose|j: int|
                                    left <= j < before.len() && #[trigger] before[j] == then[i];
                                assert(before[left - 1].storage_node != before[j].storage_node
                                    || before[left - 1].log_id != before[j].log_id);
                            }
                        }
                        kept.push(log);
                        proof {
                            assert(kept@[then.len() as int] == before[left - 1]);
                            assert(from_list(before, kept@[then.len() as int], left - 1));
                            assert forall|j: int|
                                left - 1 <= j < before.len() && keep@.contains(
                                    ((#[trigger] before[j]).storage_node, before[j].log_id),
                                ) implies kept@.contains(before[j]) by {
                                if j >= left {
                                    assert(then.contains(before[j]));
                                    let i = then.index_of(before[j]);
                                    assert(kept@[i] == before[j]);
                                }
                            }
                        }
                    }
                },
                None => {},
            }
        }
        proof {
            let after = kept@;
            assert forall|key: (StorageNodeId, u64)|
                has_log(after, key) <==> has_log(before, key) && keep@.contains(key) by {
                if has_log(after, key) {
                    let i = log_index(after, key);
                    assert(from_list(before, after[i], 0));
                    let j = choose|j: int| 0 <= j < before.len() && #[trigger] before[j]
                        == after[i];
                    assert(before[j].storage_node == key.0);
                    assert(key == (after[i].storage_node, after[i].log_id));
                }
                if has_log(before, key) && keep@.contains(key) {
                    let j = log_index(before, key);
                    assert(key == (before[j].storage_node, before[j].log_id));
                    assert(after.contains(before[j]));
                    let i = after.index_of(before[j]);
                    assert(after[i].storage_node == key.0);
                }
            }
            assert forall|key: (StorageNodeId, u64)| has_log(after, key) implies log_contents(
                after,
            )[key] == log_contents(before)[key] by {
                let i = log_index(after, key);
                assert(from_list(before, after[i], 0));
                let j = choose|j: int| 0 <= j < before.len() && #[trigger] before[j] == after[i];
                lemma_log_at(before, j);
                lemma_log_at(after, i);
                assert(key == (before[j].storage_node, before[j].log_id));
            }
        }
        *self = AppendRunLogs { logs: kept };
    }

    fn find(&self, storage_node: StorageNodeId, log_id: u64) -> (index: usize)
        ensures
            index <= self.logs@.len(),
            index < self.logs@.len() ==> self.logs@[index as int].storage_node == storage_node
                && self.logs@[index as int].log_id == log_id,
            index == self.logs@.len() ==> !has_log(self.logs@, (storage_node, log_id)),
    {
        let mut i: usize = 0;
        while i < self.logs.len()
            invariant
                i <= self.logs@.len(),
                forall|k: int|
                    0 <= k < i ==> (#[trigger] self.logs@[k]).storage_node != storage_node
                        || self.logs@[k].log_id != log_id,
            decreases self.logs@.len() - i,
        {
            if self.logs[i].storage_node.0 == storage_node.0 && self.logs[i].log_id == log_id {
                return i;
            }
            i = i + 1;
        }
        i
    }

    /// Adds bytes to the end of a log, and says where they start.
    pub fn append(&mut self, storage_node: StorageNodeId, log_id: u64, data: &[u8]) -> (offset:
        usize)
        ensures
            offset == if old(self)@.contains_key((storage_node, log_id)) {
                old(self)@[(storage_node, log_id)].len()
            } else {
                0
            },
            final(self)@ == old(self)@.insert(
                (storage_node, log_id),
                if old(self)@.contains_key((storage_node, log_id)) {
                    old(self)@[(storage_node, log_id)] + data@
                } else {
                    data@
                },
            ),
            keeps_logs(old(self)@, final(self)@),
            offset + data@.len() <= usize::MAX,
    {
        proof {
            use_type_invariant(&*self);
        }
        let ghost before = self@;
        let ghost key = (storage_node, log_id);
        let mut logs: Vec<AppendRunLog> = Vec::new();
        let i = self.find(storage_node, log_id);
        core::mem::swap(&mut self.logs, &mut logs);
        let ghost held = logs@;
        assert(before == log_contents(held));
        let mut bytes: Vec<u8> = Vec::new();
        let found = i < logs.len();
        if found {
            proof {
                lemma_log_at(held, i as int);
            }
            let log = logs.swap_remove(i);
            bytes = log.bytes;
        }
        let offset = bytes.len();
        let ghost start = bytes@;
        let mut more = vstd::slice::slice_to_vec(data);
        bytes.append(&mut more);
        let grown = bytes.len();
        assert(grown == start.len() + data@.len());
        let log = AppendRunLog { storage_node, log_id, bytes };
        let ghost rest = logs@;
        logs.push(log);
        proof {
            lemma_replaced(held, rest, logs@, i as int, found, log);
            assert(log_contents(logs@) =~= before.insert(key, start + data@));
            if !found {
                assert(start =~= Seq::<u8>::empty());
                assert(start + data@ =~= data@);
                assert(!before.contains_key(key));
            }
        }
        core::mem::swap(&mut self.logs, &mut logs);
        offset
    }

    /// Whether a part of a log is there and has the expected checksum.
    pub fn holds(
        &self,
        storage_node: StorageNodeId,
        log_id: u64,
        offset: u64,
        len: u64,
        integrity: SegmentPayloadIntegrity,
    ) -> (holds: bool)
        ensures
            holds == log_part_backed(
                self@,
                storage_node,
                log_id,
                offset as int,
                len as int,
                integrity,
            ),
    {
        proof {
            use_type_invariant(self);
        }
        let i = self.find(storage_node, log_id);
        if i >= self.logs.len() {
            return false;
        }
        proof {
            lemma_log_at(self.logs@, i as int);
        }
        let bytes = &self.logs[i].bytes;
        let total: u64 = bytes.len() as u64;
        if offset > total || len > total - offset {
            return false;
        }
        let start: usize = offset as usize;
        let end: usize = start + len as usize;
        let part = vstd::slice::slice_subrange(bytes.as_slice(), start, end);
        match verify_segment_payload_integrity(integrity, part) {
            Ok(()) => true,
            Err(_) => false,
        }
    }

    /// Fills `buf` with a part of a log.
    pub fn read(
        &self,
        storage_node: StorageNodeId,
        log_id: u64,
        range: ByteRange,
        integrity: SegmentPayloadIntegrity,
        verification: ReadVerification,
        buf: &mut [u8],
    ) -> (result: Result<(), StorageError>)
        ensures
            final(buf)@.len() == old(buf)@.len(),
            result is Ok <==> range.len == old(buf)@.len() && answers_log_read(
                self@,
                storage_node,
                log_id,
                range,
                integrity,
                verification,
            ),
            result is Ok ==> final(buf)@ == self@[(storage_node, log_id)].subrange(
                range.offset as int,
                range.end(),
            ),
            result matches Err(error) ==> error is Corrupt,
    {
        proof {
            use_type_invariant(self);
        }
        match verify_read_integrity_policy(integrity, verification) {
            Ok(()) => {},
            Err(error) => return Err(error),
        }
        let i = self.find(storage_node, log_id);
        if i >= self.logs.len() {
            return Err(StorageError::corrupt("append-run log is missing from local store"));
        }
        proof {
            lemma_log_at(self.logs@, i as int);
        }
        let bytes = &self.logs[i].bytes;
        let len: u64 = bytes.len() as u64;
        if range.offset > len || range.len > len - range.offset {
            return Err(StorageError::corrupt("append-run range exceeds local log"));
        }
        if range.len != buf.len() as u64 {
            return Err(
                StorageError::corrupt("append-run read length disagrees with output buffer"),
            );
        }
        let start: usize = range.offset as usize;
        let end: usize = start + range.len as usize;
        let part = vstd::slice::slice_subrange(bytes.as_slice(), start, end);
        let check = match verification {
            ReadVerification::Skip => false,
            _ => true,
        };
        if check {
            match verify_segment_payload_integrity(integrity, part) {
                Ok(()) => {},
                Err(error) => return Err(error),
            }
        }
        let mut k: usize = 0;
        while k < buf.len()
            invariant
                k <= buf@.len(),
                buf@.len() == old(buf)@.len(),
                part@.len() == buf@.len(),
                forall|j: int| 0 <= j < k ==> buf@[j] == part@[j],
            decreases buf@.len() - k,
        {
            buf[k] = part[k];
            k = k + 1;
        }
        assert(buf@ =~= part@);
        Ok(())
    }
}

/// Whether a read of a run log succeeds.
pub open spec fn answers_log_read(
    logs: RunLogMap,
    storage_node: StorageNodeId,
    log_id: u64,
    range: ByteRange,
    integrity: SegmentPayloadIntegrity,
    verification: ReadVerification,
) -> bool {
    &&& policy_allows(integrity, verification)
    &&& logs.contains_key((storage_node, log_id))
    &&& range.end() <= logs[(storage_node, log_id)].len()
    &&& verification != ReadVerification::Skip ==> integrity_matches(
        integrity,
        logs[(storage_node, log_id)].subrange(range.offset as int, range.end()),
    )
}

proof fn lemma_replaced(
    held: Seq<AppendRunLog>,
    rest: Seq<AppendRunLog>,
    after: Seq<AppendRunLog>,
    i: int,
    found: bool,
    log: AppendRunLog,
)
    requires
        distinct(held),
        0 <= i <= held.len(),
        found == (i < held.len()),
        found ==> held[i].storage_node == log.storage_node && held[i].log_id == log.log_id,
        !found ==> !has_log(held, (log.storage_node, log.log_id)),
        found ==> rest == held.update(i, held.last()).drop_last(),
        !found ==> rest == held,
        after == rest.push(log),
    ensures
        distinct(after),
        log_contents(after) == log_contents(held).insert((log.storage_node, log.log_id), log.bytes@),
{
    let key = (log.storage_node, log.log_id);
    assert forall|k: int| 0 <= k < rest.len() implies exists|m: int|
        0 <= m < held.len() && m != i && #[trigger] held[m] == #[trigger] rest[k] by {
        if found && k == i {
            assert(held[held.len() - 1] == rest[k]);
        } else {
            assert(held[k] == rest[k]);
        }
    }
    assert forall|k: int| 0 <= k < rest.len() implies (#[trigger] rest[k]).storage_node != key.0
        || rest[k].log_id != key.1 by {
        let m = choose|m: int|
            0 <= m < held.len() && m != i && #[trigger] held[m] == rest[k];
        if found {
            if m < i {
                assert(held[m].storage_node != held[i].storage_node || held[m].log_id
                    != held[i].log_id);
            } else {
                assert(held[i].storage_node != held[m].storage_node || held[i].log_id
                    != held[m].log_id);
            }
        } else {
            if held[m].storage_node == key.0 && held[m].log_id == key.1 {
                assert(has_log(held, key));
            }
        }
    }
    assert forall|a: int, b: int| 0 <= a < b < after.len() implies (
    #[trigger] after[a]).storage_node != (#[trigger] after[b]).storage_node || after[a].log_id
        != after[b].log_id by {
        if b == rest.len() {
            assert(after[a] == rest[a]);
        } else {
            assert(after[a] == rest[a] && after[b] == rest[b]);
            if found && a == i {
                assert(rest[a] == held[held.len() - 1] && rest[b] == held[b]);
                assert(held[b].storage_node != held[held.len() - 1].storage_node || held[b].log_id
                    != held[held.len() - 1].log_id);
            } else if found && b == i {
                assert(rest[b] == held[held.len() - 1] && rest[a] == held[a]);
                assert(held[a].storage_node != held[held.len() - 1].storage_node || held[a].log_id
                    != held[held.len() - 1].log_id);
            } else {
                assert(rest[a] == held[a] && rest[b] == held[b]);
            }
        }
    }
    lemma_log_at(after, after.len() - 1);
    assert forall|other: (StorageNodeId, u64)| #[trigger]
        log_contents(after).contains_key(other) == log_contents(held).insert(
            key,
            log.bytes@,
        ).contains_key(other) by {
        if other != key {
            if has_log(after, other) {
                let k = log_index(after, other);
                assert(after[k].storage_node == other.0 && after[k].log_id == other.1);
                assert(after[k] == rest[k]);
                let m = choose|m: int|
                    0 <= m < held.len() && m != i && #[trigger] held[m] == rest[k];
                assert(has_log(held, other));
            }
            if has_log(held, other) {
                let m = log_index(held, other);
                assert(held[m].storage_node == other.0 && held[m].log_id == other.1);
                assert(m != i);
                if found && m == held.len() - 1 {
                    assert(after[i] == held[m]);
                } else {
                    assert(after[m] == held[m]);
                }
                assert(has_log(after, other));
            }
        }
    }
    assert forall|other: (StorageNodeId, u64)| #[trigger]
        log_contents(after).contains_key(other) implies log_contents(after)[other] == log_contents(
        held,
    ).insert(key, log.bytes@)[other] by {
        if other != key {
            let k = log_index(after, other);
            assert(has_log(after, other));
            assert(after[k].storage_node == other.0 && after[k].log_id == other.1);
            assert(after[k] == rest[k]);
            let m = choose|m: int|
                0 <= m < held.len() && m != i && #[trigger] held[m] == rest[k];
            lemma_log_at(held, m);
            lemma_log_at(after, k);
        }
    }
    assert(log_contents(after) =~= log_contents(held).insert(key, log.bytes@));
}

} // verus!
