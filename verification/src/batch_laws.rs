//! What a batch of writes leaves: at every place the bytes of the last write that
//! covers it, and elsewhere what was there.
use vstd::prelude::*;

use crate::batch::{batch_at, batch_places, file_batch_at, file_batch_end, lemma_file_batch_end};
use crate::block_api::BlockBatchWrite;
use crate::coordinator::LocalCoordinator;
use crate::file_commit::{file_batch_beyond, file_batch_places, requested_len};
use crate::id::{DeviceId, FileId, KeyspaceId};
use crate::native_api::FileBatchWrite;

verus! {

/// Whether some bytes that start at an offset reach a place.
pub open spec fn covers(offset: u64, bytes: Seq<u8>, place: int) -> bool {
    offset <= place < offset + bytes.len()
}

/// Of the writes of a block batch that cover a place, the last decides on its
/// byte and on the policy that it is kept under.
pub proof fn law_last_block_write_decides(writes: Seq<BlockBatchWrite>, i: int, place: int)
    requires
        0 <= i < writes.len(),
        covers(writes[i].offset, writes[i].bytes@, place),
        forall|j: int|
            i < j < writes.len() ==> !covers(
                (#[trigger] writes[j]).offset,
                writes[j].bytes@,
                place,
            ),
    ensures
        batch_at(writes, place) is Some,
        batch_at(writes, place)->0.value == writes[i].bytes@[place - writes[i].offset],
        batch_at(writes, place)->0.payload_integrity == writes[i].payload_integrity,
    decreases writes.len(),
{
    let last = writes.len() - 1;
    assert(writes.last() == writes[last]);
    if i < last {
        let shorter = writes.drop_last();
        assert(!covers(writes[last].offset, writes[last].bytes@, place));
        assert forall|j: int| i < j < shorter.len() implies !covers(
            (#[trigger] shorter[j]).offset,
            shorter[j].bytes@,
            place,
        ) by {
            assert(shorter[j] == writes[j]);
        }
        law_last_block_write_decides(shorter, i, place);
    }
}

/// A block batch writes to no place that none of its writes covers.
pub proof fn law_block_batch_writes_where_it_says(writes: Seq<BlockBatchWrite>, place: int)
    requires
        forall|j: int|
            0 <= j < writes.len() ==> !covers(
                (#[trigger] writes[j]).offset,
                writes[j].bytes@,
                place,
            ),
    ensures
        batch_at(writes, place) is None,
    decreases writes.len(),
{
    if writes.len() > 0 {
        let last = writes.len() - 1;
        let shorter = writes.drop_last();
        assert(writes.last() == writes[last]);
        assert(!covers(writes[last].offset, writes[last].bytes@, place));
        assert forall|j: int| 0 <= j < shorter.len() implies !covers(
            (#[trigger] shorter[j]).offset,
            shorter[j].bytes@,
            place,
        ) by {
            assert(shorter[j] == writes[j]);
        }
        law_block_batch_writes_where_it_says(shorter, place);
    }
}

/// Of the writes of a file batch that cover a place, the last decides on its byte.
pub proof fn law_last_file_write_decides(writes: Seq<FileBatchWrite>, i: int, place: int)
    requires
        0 <= i < writes.len(),
        covers(writes[i].offset, writes[i].bytes@, place),
        forall|j: int|
            i < j < writes.len() ==> !covers(
                (#[trigger] writes[j]).offset,
                writes[j].bytes@,
                place,
            ),
    ensures
        file_batch_at(writes, place) == Some(writes[i].bytes@[place - writes[i].offset]),
    decreases writes.len(),
{
    let last = writes.len() - 1;
    assert(writes.last() == writes[last]);
    if i < last {
        let shorter = writes.drop_last();
        assert(!covers(writes[last].offset, writes[last].bytes@, place));
        assert forall|j: int| i < j < shorter.len() implies !covers(
            (#[trigger] shorter[j]).offset,
            shorter[j].bytes@,
            place,
        ) by {
            assert(shorter[j] == writes[j]);
        }
        law_last_file_write_decides(shorter, i, place);
    }
}

/// A file batch writes to no place that none of its writes covers.
pub proof fn law_file_batch_writes_where_it_says(writes: Seq<FileBatchWrite>, place: int)
    requires
        forall|j: int|
            0 <= j < writes.len() ==> !covers(
                (#[trigger] writes[j]).offset,
                writes[j].bytes@,
                place,
            ),
    ensures
        file_batch_at(writes, place) is None,
    decreases writes.len(),
{
    if writes.len() > 0 {
        let last = writes.len() - 1;
        let shorter = writes.drop_last();
        assert(writes.last() == writes[last]);
        assert(!covers(writes[last].offset, writes[last].bytes@, place));
        assert forall|j: int| 0 <= j < shorter.len() implies !covers(
            (#[trigger] shorter[j]).offset,
            shorter[j].bytes@,
            place,
        ) by {
            assert(shorter[j] == writes[j]);
        }
        law_file_batch_writes_where_it_says(shorter, place);
    }
}

/// After a batch on a device, a place reads as the last write that covers it.
pub proof fn law_device_reads_as_the_last_write(
    before: LocalCoordinator,
    after: LocalCoordinator,
    device_id: DeviceId,
    writes: Seq<BlockBatchWrite>,
    i: int,
    place: int,
)
    requires
        after.batch_applied(&before, device_id, writes),
        0 <= place < before.device_bytes(device_id),
        0 <= i < writes.len(),
        covers(writes[i].offset, writes[i].bytes@, place),
        forall|j: int|
            i < j < writes.len() ==> !covers(
                (#[trigger] writes[j]).offset,
                writes[j].bytes@,
                place,
            ),
    ensures
        after.device_byte(device_id, place) == writes[i].bytes@[place - writes[i].offset],
{
    law_last_block_write_decides(writes, i, place);
}

/// After a batch on a device, a place that no write covers reads as before.
pub proof fn law_device_keeps_what_no_write_covers(
    before: LocalCoordinator,
    after: LocalCoordinator,
    device_id: DeviceId,
    writes: Seq<BlockBatchWrite>,
    place: int,
)
    requires
        after.batch_applied(&before, device_id, writes),
        0 <= place < before.device_bytes(device_id),
        forall|j: int|
            0 <= j < writes.len() ==> !covers(
                (#[trigger] writes[j]).offset,
                writes[j].bytes@,
                place,
            ),
    ensures
        after.device_byte(device_id, place) == before.device_byte(device_id, place),
{
    law_block_batch_writes_where_it_says(writes, place);
}

/// After a batch on a file, a place reads as the last write that covers it, and
/// lies within the file.
pub proof fn law_file_reads_as_the_last_write(
    before: LocalCoordinator,
    after: LocalCoordinator,
    keyspace_id: KeyspaceId,
    file_id: FileId,
    writes: Seq<FileBatchWrite>,
    i: int,
    place: int,
)
    requires
        after.file_batch_applied(&before, keyspace_id, file_id, writes),
        0 <= i < writes.len(),
        covers(writes[i].offset, writes[i].bytes@, place),
        forall|j: int|
            i < j < writes.len() ==> !covers(
                (#[trigger] writes[j]).offset,
                writes[j].bytes@,
                place,
            ),
    ensures
        place < after.file_size(keyspace_id, file_id),
        after.file_byte(keyspace_id, file_id, place) == writes[i].bytes@[place
            - writes[i].offset],
{
    law_last_file_write_decides(writes, i, place);
    lemma_file_batch_end(writes);
    if place >= after.file_limit(keyspace_id, file_id) {
        assert(file_batch_beyond(writes, after.file_limit(keyspace_id, file_id)));
    }
    assert(place < after.file_size(keyspace_id, file_id));
}

/// After a batch on a file, a place that no write covers reads as before where
/// the file reached already, and as zero where a write behind it has made the
/// file longer.
pub proof fn law_file_keeps_what_no_write_covers(
    before: LocalCoordinator,
    after: LocalCoordinator,
    keyspace_id: KeyspaceId,
    file_id: FileId,
    writes: Seq<FileBatchWrite>,
    place: int,
)
    requires
        after.file_batch_applied(&before, keyspace_id, file_id, writes),
        0 <= place < after.file_limit(keyspace_id, file_id),
        forall|j: int|
            0 <= j < writes.len() ==> !covers(
                (#[trigger] writes[j]).offset,
                writes[j].bytes@,
                place,
            ),
    ensures
        place < before.file_size(keyspace_id, file_id) ==> after.file_byte(
            keyspace_id,
            file_id,
            place,
        ) == before.file_byte(keyspace_id, file_id, place),
        before.clean_tail(keyspace_id, file_id) && before.file_size(keyspace_id, file_id) <= place
            < after.file_size(keyspace_id, file_id) ==> after.file_byte(
            keyspace_id,
            file_id,
            place,
        ) == 0,
{
    law_file_batch_writes_where_it_says(writes, place);
    assert(after.file_byte(keyspace_id, file_id, place) == after.file_byte(
        keyspace_id,
        file_id,
        place,
    ));
}

/// After a batch a file ends where it ended, or behind the write that reaches
/// furthest: it never loses bytes, holds every write, and takes no more room.
pub proof fn law_file_ends_behind_its_writes(
    before: LocalCoordinator,
    after: LocalCoordinator,
    keyspace_id: KeyspaceId,
    file_id: FileId,
    writes: Seq<FileBatchWrite>,
)
    requires
        after.file_batch_applied(&before, keyspace_id, file_id, writes),
    ensures
        before.file_size(keyspace_id, file_id) <= after.file_size(keyspace_id, file_id),
        forall|i: int|
            0 <= i < writes.len() && (#[trigger] writes[i]).bytes@.len() > 0 ==> writes[i].offset
                + writes[i].bytes@.len() <= after.file_size(keyspace_id, file_id),
        after.file_size(keyspace_id, file_id) == before.file_size(keyspace_id, file_id) || exists|
            i: int,
        |
            0 <= i < writes.len() && (#[trigger] writes[i]).bytes@.len() > 0
                && after.file_size(keyspace_id, file_id) == writes[i].offset
                + writes[i].bytes@.len(),
{
    lemma_batch_end_is_of_a_write(writes);
}

proof fn lemma_batch_end_is_of_a_write(writes: Seq<FileBatchWrite>)
    ensures
        file_batch_end(writes) >= 0,
        forall|i: int|
            0 <= i < writes.len() && (#[trigger] writes[i]).bytes@.len() > 0 ==> writes[i].offset
                + writes[i].bytes@.len() <= file_batch_end(writes),
        file_batch_end(writes) == 0 || exists|i: int|
            0 <= i < writes.len() && (#[trigger] writes[i]).bytes@.len() > 0 && file_batch_end(
                writes,
            ) == writes[i].offset + writes[i].bytes@.len(),
    decreases writes.len(),
{
    if writes.len() > 0 {
        let last = writes.len() - 1;
        let shorter = writes.drop_last();
        assert(writes.last() == writes[last]);
        lemma_batch_end_is_of_a_write(shorter);
        assert forall|i: int|
            0 <= i < writes.len() && (#[trigger] writes[i]).bytes@.len() > 0 implies writes[i].offset
            + writes[i].bytes@.len() <= file_batch_end(writes) by {
            if i < last {
                assert(shorter[i] == writes[i]);
            }
        }
        if file_batch_end(writes) == file_batch_end(shorter) && file_batch_end(writes) > 0 {
            let i = choose|i: int|
                0 <= i < shorter.len() && (#[trigger] shorter[i]).bytes@.len() > 0
                    && file_batch_end(shorter) == shorter[i].offset + shorter[i].bytes@.len();
            assert(writes[i] == shorter[i]);
        } else if file_batch_end(writes) > 0 {
            assert(writes[last].bytes@.len() > 0);
        }
    }
}

/// The places that a batch counts as written are those that a write covers.
pub proof fn law_batch_places_are_covered(writes: Seq<BlockBatchWrite>, place: int)
    ensures
        batch_places(writes).contains(place) <==> exists|i: int|
            0 <= i < writes.len() && covers(
                (#[trigger] writes[i]).offset,
                writes[i].bytes@,
                place,
            ),
{
    if exists|i: int|
        0 <= i < writes.len() && covers((#[trigger] writes[i]).offset, writes[i].bytes@, place) {
        lemma_last_block_cover(writes, place);
    } else {
        law_block_batch_writes_where_it_says(writes, place);
    }
}

proof fn lemma_last_block_cover(writes: Seq<BlockBatchWrite>, place: int)
    requires
        exists|i: int|
            0 <= i < writes.len() && covers(
                (#[trigger] writes[i]).offset,
                writes[i].bytes@,
                place,
            ),
    ensures
        batch_at(writes, place) is Some,
    decreases writes.len(),
{
    let i = choose|i: int|
        0 <= i < writes.len() && covers((#[trigger] writes[i]).offset, writes[i].bytes@, place);
    let last = writes.len() - 1;
    assert(writes.last() == writes[last]);
    if !covers(writes[last].offset, writes[last].bytes@, place) {
        assert(writes.drop_last()[i] == writes[i]);
        lemma_last_block_cover(writes.drop_last(), place);
    }
}

/// The places that a file batch counts as written are those that a write covers.
pub proof fn law_file_batch_places_are_covered(writes: Seq<FileBatchWrite>, place: int)
    ensures
        file_batch_places(writes).contains(place) <==> exists|i: int|
            0 <= i < writes.len() && covers(
                (#[trigger] writes[i]).offset,
                writes[i].bytes@,
                place,
            ),
{
    if exists|i: int|
        0 <= i < writes.len() && covers((#[trigger] writes[i]).offset, writes[i].bytes@, place) {
        lemma_last_file_cover(writes, place);
    } else {
        law_file_batch_writes_where_it_says(writes, place);
    }
}

proof fn lemma_last_file_cover(writes: Seq<FileBatchWrite>, place: int)
    requires
        exists|i: int|
            0 <= i < writes.len() && covers(
                (#[trigger] writes[i]).offset,
                writes[i].bytes@,
                place,
            ),
    ensures
        file_batch_at(writes, place) is Some,
    decreases writes.len(),
{
    let i = choose|i: int|
        0 <= i < writes.len() && covers((#[trigger] writes[i]).offset, writes[i].bytes@, place);
    let last = writes.len() - 1;
    assert(writes.last() == writes[last]);
    if !covers(writes[last].offset, writes[last].bytes@, place) {
        assert(writes.drop_last()[i] == writes[i]);
        lemma_last_file_cover(writes.drop_last(), place);
    }
}

/// What two batches ask for together is what they ask for one by one, and one
/// write asks for its bytes.
pub proof fn law_requested_bytes_add_up(first: Seq<FileBatchWrite>, second: Seq<FileBatchWrite>)
    ensures
        requested_len(first + second) == requested_len(first) + requested_len(second),
        first.len() == 1 ==> requested_len(first) == first[0].bytes@.len(),
    decreases second.len(),
{
    if second.len() == 0 {
        assert(first + second =~= first);
    } else {
        assert((first + second).drop_last() =~= first + second.drop_last());
        assert((first + second).last() == second.last());
        law_requested_bytes_add_up(first, second.drop_last());
    }
    if first.len() == 1 {
        assert(first.drop_last().len() == 0);
        assert(requested_len(first.drop_last()) == 0);
    }
}

} // verus!
