//! What lists of ranges say of a place: what the last range that covers it says, and
//! nothing where none does.
use vstd::prelude::*;

use crate::data_log::DurableDataLogRef;
use crate::id::{FileId, KeyspaceId, MetadataNodeId};
use crate::journal_overlay::{coalesced_runs, commit_byte, run_of_entry};
use crate::journal_records::BlockJournalEntry;
use crate::journal_segments::{FoundSegmentRecord, WantedSegment, recovered_manifest};
use crate::journal_sources::{
    BlockJournalInlineFragment, JournalRun, SourceKind, continues, fragment_bytes,
};
use crate::leaf::{LogByte, SegmentBlock, extent_at, leaf_at};
use crate::metadata::{FileWriterEpoch, LiveAppendStream};
use crate::metadata_devices::with_updates;
use crate::metadata_records::{
    AppendStreamRunRecord, AppendStreamStatus, LeafEntry, RunBackedFileExtent, ShardRootUpdate,
};
use crate::metadata_streams::{
    extents_of, file_epoch, record_byte, record_up_to, records_byte, token_open,
};
use crate::native_api::AppendStream;
use crate::read_plan::{ReadByte, ReadExtent, ReadSource, RunLogMap, read_at};
use crate::tree::{TreeRangeEdit, edited};

verus! {

/// A leaf maps a block to the segment of the last entry that covers it, as far into the
/// segment as the block is into the entry.
pub proof fn law_last_entry_maps_a_block(
    entries: Seq<LeafEntry>,
    i: int,
    block: int,
)
    requires
        0 <= i < entries.len(),
        entries[i].logical_start.0 <= block < entries[i].logical_start.0 + entries[i].blocks.0,
        forall|j: int|
            i < j < entries.len() ==> !((#[trigger] entries[j]).logical_start.0 <= block
                < entries[j].logical_start.0 + entries[j].blocks.0),
    ensures
        leaf_at(entries, block) == Some(
            SegmentBlock {
                segment_id: entries[i].segment_id,
                offset: entries[i].segment_offset.0 + (block - entries[i].logical_start.0),
            },
        ),
    decreases entries.len(),
{
    let last = entries.len() - 1;
    assert(entries.last() == entries[last]);
    if i < last {
        let fewer = entries.drop_last();
        assert(!(entries[last].logical_start.0 <= block
            < entries[last].logical_start.0 + entries[last].blocks.0));
        assert(fewer[i] == entries[i]);
        assert forall|j: int| i < j < fewer.len() implies !(
        (#[trigger] fewer[j]).logical_start.0 <= block
            < fewer[j].logical_start.0 + fewer[j].blocks.0) by {
            assert(fewer[j] == entries[j]);
        }
        law_last_entry_maps_a_block(fewer, i, block);
    }
}

/// A leaf maps no block that none of its entries covers.
pub proof fn law_unmapped_block_has_no_segment(
    entries: Seq<LeafEntry>,
    block: int,
)
    requires
        forall|j: int|
            0 <= j < entries.len() ==> !((#[trigger] entries[j]).logical_start.0 <= block
                < entries[j].logical_start.0 + entries[j].blocks.0),
    ensures
        leaf_at(entries, block) == None::<SegmentBlock>,
    decreases entries.len(),
{
    if entries.len() > 0 {
        let last = entries.len() - 1;
        let fewer = entries.drop_last();
        assert(entries.last() == entries[last]);
        assert(!(entries[last].logical_start.0 <= block
            < entries[last].logical_start.0 + entries[last].blocks.0));
        assert forall|j: int| 0 <= j < fewer.len() implies !(
        (#[trigger] fewer[j]).logical_start.0 <= block
            < fewer[j].logical_start.0 + fewer[j].blocks.0) by {
            assert(fewer[j] == entries[j]);
        }
        law_unmapped_block_has_no_segment(fewer, block);
    }
}

/// Extents map a byte to the log of the last extent that covers it, as far into the log's
/// payload as the byte is into the extent.
pub proof fn law_last_extent_maps_a_byte(
    extents: Seq<RunBackedFileExtent>,
    i: int,
    byte: int,
)
    requires
        0 <= i < extents.len(),
        extents[i].file_offset_start <= byte < extents[i].file_offset_start + extents[i].payload_len,
        forall|j: int|
            i < j < extents.len() ==> !((#[trigger] extents[j]).file_offset_start <= byte
                < extents[j].file_offset_start + extents[j].payload_len),
    ensures
        extent_at(extents, byte) == Some(
            LogByte {
                storage_node: extents[i].run.storage_node,
                log_id: extents[i].run.log_id,
                offset: extents[i].run.log_payload_offset + (byte - extents[i].file_offset_start),
            },
        ),
    decreases extents.len(),
{
    let last = extents.len() - 1;
    assert(extents.last() == extents[last]);
    if i < last {
        let fewer = extents.drop_last();
        assert(!(extents[last].file_offset_start <= byte
            < extents[last].file_offset_start + extents[last].payload_len));
        assert(fewer[i] == extents[i]);
        assert forall|j: int| i < j < fewer.len() implies !(
        (#[trigger] fewer[j]).file_offset_start <= byte
            < fewer[j].file_offset_start + fewer[j].payload_len) by {
            assert(fewer[j] == extents[j]);
        }
        law_last_extent_maps_a_byte(fewer, i, byte);
    }
}

/// Extents map no byte that none of them covers.
pub proof fn law_byte_without_extent_has_no_run(
    extents: Seq<RunBackedFileExtent>,
    byte: int,
)
    requires
        forall|j: int|
            0 <= j < extents.len() ==> !((#[trigger] extents[j]).file_offset_start <= byte
                < extents[j].file_offset_start + extents[j].payload_len),
    ensures
        extent_at(extents, byte) == None::<LogByte>,
    decreases extents.len(),
{
    if extents.len() > 0 {
        let last = extents.len() - 1;
        let fewer = extents.drop_last();
        assert(extents.last() == extents[last]);
        assert(!(extents[last].file_offset_start <= byte
            < extents[last].file_offset_start + extents[last].payload_len));
        assert forall|j: int| 0 <= j < fewer.len() implies !(
        (#[trigger] fewer[j]).file_offset_start <= byte
            < fewer[j].file_offset_start + fewer[j].payload_len) by {
            assert(fewer[j] == extents[j]);
        }
        law_byte_without_extent_has_no_run(fewer, byte);
    }
}

/// Edits leave at a block what the last edit that covers it puts there: a block of its
/// segment, or nothing.
pub proof fn law_last_edit_decides(
    edits: Seq<TreeRangeEdit>,
    i: int,
    block: int,
    before: Option<SegmentBlock>,
)
    requires
        0 <= i < edits.len(),
        edits[i].range.start.0 <= block < edits[i].range.start.0 + edits[i].range.blocks.0,
        forall|j: int|
            i < j < edits.len() ==> !((#[trigger] edits[j]).range.start.0 <= block
                < edits[j].range.start.0 + edits[j].range.blocks.0),
    ensures
        edited(edits, block, before) == match edits[i].replacement {
            Some(replacement) => Some(
                SegmentBlock {
                    segment_id: replacement.segment_id,
                    offset: block - replacement.segment_base.0,
                },
            ),
            None => None,
        },
    decreases edits.len(),
{
    let last = edits.len() - 1;
    assert(edits.last() == edits[last]);
    if i < last {
        let fewer = edits.drop_last();
        assert(!(edits[last].range.start.0 <= block
            < edits[last].range.start.0 + edits[last].range.blocks.0));
        assert(fewer[i] == edits[i]);
        assert forall|j: int| i < j < fewer.len() implies !(
        (#[trigger] fewer[j]).range.start.0 <= block
            < fewer[j].range.start.0 + fewer[j].range.blocks.0) by {
            assert(fewer[j] == edits[j]);
        }
        law_last_edit_decides(fewer, i, block, before);
    }
}

/// Edits leave a block alone that none of them covers.
pub proof fn law_block_without_edit_stays(
    edits: Seq<TreeRangeEdit>,
    block: int,
    before: Option<SegmentBlock>,
)
    requires
        forall|j: int|
            0 <= j < edits.len() ==> !((#[trigger] edits[j]).range.start.0 <= block
                < edits[j].range.start.0 + edits[j].range.blocks.0),
    ensures
        edited(edits, block, before) == before,
    decreases edits.len(),
{
    if edits.len() > 0 {
        let last = edits.len() - 1;
        let fewer = edits.drop_last();
        assert(edits.last() == edits[last]);
        assert(!(edits[last].range.start.0 <= block
            < edits[last].range.start.0 + edits[last].range.blocks.0));
        assert forall|j: int| 0 <= j < fewer.len() implies !(
        (#[trigger] fewer[j]).range.start.0 <= block
            < fewer[j].range.start.0 + fewer[j].range.blocks.0) by {
            assert(fewer[j] == edits[j]);
        }
        law_block_without_edit_stays(fewer, block, before);
    }
}

/// A plan reads a place of its output from the source of the last extent that covers it.
pub proof fn law_last_extent_is_read(
    extents: Seq<ReadExtent>,
    i: int,
    place: int,
)
    requires
        0 <= i < extents.len(),
        extents[i].output_offset <= place < extents[i].output_offset + extents[i].len,
        forall|j: int|
            i < j < extents.len() ==> !((#[trigger] extents[j]).output_offset <= place
                < extents[j].output_offset + extents[j].len),
    ensures
        read_at(extents, place) == Some(
            match extents[i].source {
                ReadSource::Zero => ReadByte::Zero,
                ReadSource::Segment { storage_node, segment_id, segment_offset, .. } => {
                    ReadByte::Stored {
                        storage_node,
                        segment_id,
                        offset: segment_offset + (place - extents[i].output_offset),
                    }
                },
                ReadSource::AppendRun { storage_node, log_id, payload_offset, .. } => {
                    ReadByte::Logged {
                        storage_node,
                        log_id,
                        offset: payload_offset + (place - extents[i].output_offset),
                    }
                },
            },
        ),
    decreases extents.len(),
{
    let last = extents.len() - 1;
    assert(extents.last() == extents[last]);
    if i < last {
        let fewer = extents.drop_last();
        assert(!(extents[last].output_offset <= place
            < extents[last].output_offset + extents[last].len));
        assert(fewer[i] == extents[i]);
        assert forall|j: int| i < j < fewer.len() implies !(
        (#[trigger] fewer[j]).output_offset <= place
            < fewer[j].output_offset + fewer[j].len) by {
            assert(fewer[j] == extents[j]);
        }
        law_last_extent_is_read(fewer, i, place);
    }
}

/// A plan reads nothing for a place that none of its extents covers.
pub proof fn law_place_without_extent_is_not_read(
    extents: Seq<ReadExtent>,
    place: int,
)
    requires
        forall|j: int|
            0 <= j < extents.len() ==> !((#[trigger] extents[j]).output_offset <= place
                < extents[j].output_offset + extents[j].len),
    ensures
        read_at(extents, place) == None::<ReadByte>,
    decreases extents.len(),
{
    if extents.len() > 0 {
        let last = extents.len() - 1;
        let fewer = extents.drop_last();
        assert(extents.last() == extents[last]);
        assert(!(extents[last].output_offset <= place
            < extents[last].output_offset + extents[last].len));
        assert forall|j: int| 0 <= j < fewer.len() implies !(
        (#[trigger] fewer[j]).output_offset <= place
            < fewer[j].output_offset + fewer[j].len) by {
            assert(fewer[j] == extents[j]);
        }
        law_place_without_extent_is_not_read(fewer, place);
    }
}

/// A stream holds at a byte what the last record that covers it has in its log.
pub proof fn law_last_record_holds_a_byte(
    records: Seq<AppendStreamRunRecord>,
    i: int,
    byte: int,
    logs: RunLogMap,
)
    requires
        0 <= i < records.len(),
        records[i].offset <= byte < records[i].offset + records[i].len,
        forall|j: int|
            i < j < records.len() ==> !((#[trigger] records[j]).offset <= byte
                < records[j].offset + records[j].len),
    ensures
        records_byte(logs, records, byte) == Some(
            logs[(records[i].run.storage_node, records[i].run.log_id)][records[i].run.log_payload_offset
                + (byte - records[i].offset)],
        ),
    decreases records.len(),
{
    let last = records.len() - 1;
    assert(records.last() == records[last]);
    if i < last {
        let fewer = records.drop_last();
        assert(!(records[last].offset <= byte
            < records[last].offset + records[last].len));
        assert(fewer[i] == records[i]);
        assert forall|j: int| i < j < fewer.len() implies !(
        (#[trigger] fewer[j]).offset <= byte
            < fewer[j].offset + fewer[j].len) by {
            assert(fewer[j] == records[j]);
        }
        law_last_record_holds_a_byte(fewer, i, byte, logs);
    }
}

/// A stream holds no byte that none of its records covers.
pub proof fn law_byte_without_record_is_not_held(
    records: Seq<AppendStreamRunRecord>,
    byte: int,
    logs: RunLogMap,
)
    requires
        forall|j: int|
            0 <= j < records.len() ==> !((#[trigger] records[j]).offset <= byte
                < records[j].offset + records[j].len),
    ensures
        records_byte(logs, records, byte) == None::<u8>,
    decreases records.len(),
{
    if records.len() > 0 {
        let last = records.len() - 1;
        let fewer = records.drop_last();
        assert(records.last() == records[last]);
        assert(!(records[last].offset <= byte
            < records[last].offset + records[last].len));
        assert forall|j: int| 0 <= j < fewer.len() implies !(
        (#[trigger] fewer[j]).offset <= byte
            < fewer[j].offset + fewer[j].len) by {
            assert(fewer[j] == records[j]);
        }
        law_byte_without_record_is_not_held(fewer, byte, logs);
    }
}

/// A commit of a journal leaves a place alone that none of its entries covers.
pub proof fn law_commit_writes_where_it_says(entries: Seq<BlockJournalEntry>, place: int)
    requires
        forall|j: int| 0 <= j < entries.len() ==> !(#[trigger] entries[j]).covers().contains(place),
    ensures
        commit_byte(entries, place) is None,
    decreases entries.len(),
{
    if entries.len() > 0 {
        let last = entries.len() - 1;
        let fewer = entries.drop_last();
        assert(entries.last() == entries[last]);
        assert(!entries[last].covers().contains(place));
        assert forall|j: int| 0 <= j < fewer.len() implies !(
        #[trigger] fewer[j]).covers().contains(place) by {
            assert(fewer[j] == entries[j]);
        }
        law_commit_writes_where_it_says(fewer, place);
    }
}

/// After a commit a shard has the new root of the last update on it, and the root
/// that it had where no update is on it.
pub proof fn law_updates_move_their_shards(
    roots: Seq<MetadataNodeId>,
    updates: Seq<ShardRootUpdate>,
    shard: int,
)
    requires
        0 <= shard < roots.len(),
        forall|j: int|
            0 <= j < updates.len() ==> (#[trigger] updates[j]).shard_id.0 < roots.len(),
    ensures
        with_updates(roots, updates).len() == roots.len(),
        forall|i: int|
            0 <= i < updates.len() && (#[trigger] updates[i]).shard_id.0 == shard && (forall|j: int|
                i < j < updates.len() ==> (#[trigger] updates[j]).shard_id.0 != shard)
                ==> with_updates(roots, updates)[shard] == updates[i].new_root,
        (forall|j: int| 0 <= j < updates.len() ==> (#[trigger] updates[j]).shard_id.0 != shard)
            ==> with_updates(roots, updates)[shard] == roots[shard],
    decreases updates.len(),
{
    if updates.len() > 0 {
        let last = updates.len() - 1;
        let fewer = updates.drop_last();
        assert(updates.last() == updates[last]);
        assert forall|j: int| 0 <= j < fewer.len() implies (#[trigger] fewer[j]).shard_id.0
            < roots.len() by {
            assert(fewer[j] == updates[j]);
        }
        law_updates_move_their_shards(roots, fewer, shard);
        assert forall|i: int|
            0 <= i < updates.len() && (#[trigger] updates[i]).shard_id.0 == shard && (forall|j: int|
                i < j < updates.len() ==> (#[trigger] updates[j]).shard_id.0 != shard) implies
            with_updates(roots, updates)[shard] == updates[i].new_root by {
            if i < last {
                assert(updates[last].shard_id.0 != shard);
                assert(fewer[i] == updates[i]);
                assert forall|j: int| i < j < fewer.len() implies (
                #[trigger] fewer[j]).shard_id.0 != shard by {
                    assert(fewer[j] == updates[j]);
                }
            }
        }
        if forall|j: int| 0 <= j < updates.len() ==> (#[trigger] updates[j]).shard_id.0 != shard {
            assert(updates[last].shard_id.0 != shard);
            assert forall|j: int| 0 <= j < fewer.len() implies (#[trigger] fewer[j]).shard_id.0
                != shard by {
                assert(fewer[j] == updates[j]);
            }
        }
    }
}

/// The writer epoch of a file is the one that is noted for it, and zero where none is.
pub proof fn law_epoch_is_the_one_noted(
    epochs: Seq<FileWriterEpoch>,
    keyspace_id: KeyspaceId,
    file_id: FileId,
)
    requires
        forall|i: int, j: int|
            0 <= i < j < epochs.len() ==> (#[trigger] epochs[i]).keyspace_id != (
            #[trigger] epochs[j]).keyspace_id || epochs[i].file_id != epochs[j].file_id,
    ensures
        forall|i: int|
            0 <= i < epochs.len() && (#[trigger] epochs[i]).keyspace_id == keyspace_id
                && epochs[i].file_id == file_id ==> file_epoch(epochs, keyspace_id, file_id)
                == epochs[i].writer_epoch.0,
        (forall|i: int|
            0 <= i < epochs.len() ==> (#[trigger] epochs[i]).keyspace_id != keyspace_id
                || epochs[i].file_id != file_id) ==> file_epoch(epochs, keyspace_id, file_id) == 0,
    decreases epochs.len(),
{
    if epochs.len() > 0 {
        let last = epochs.len() - 1;
        let fewer = epochs.drop_last();
        assert(epochs.last() == epochs[last]);
        assert forall|i: int, j: int| 0 <= i < j < fewer.len() implies (
        #[trigger] fewer[i]).keyspace_id != (#[trigger] fewer[j]).keyspace_id || fewer[i].file_id
            != fewer[j].file_id by {
            assert(epochs[i].keyspace_id != epochs[j].keyspace_id || epochs[i].file_id
                != epochs[j].file_id);
        }
        law_epoch_is_the_one_noted(fewer, keyspace_id, file_id);
        assert forall|i: int|
            0 <= i < epochs.len() && (#[trigger] epochs[i]).keyspace_id == keyspace_id
                && epochs[i].file_id == file_id implies file_epoch(epochs, keyspace_id, file_id)
            == epochs[i].writer_epoch.0 by {
            if i < last {
                assert(epochs[i].keyspace_id != epochs[last].keyspace_id || epochs[i].file_id
                    != epochs[last].file_id);
                assert(fewer[i] == epochs[i]);
            }
        }
        if forall|i: int|
            0 <= i < epochs.len() ==> (#[trigger] epochs[i]).keyspace_id != keyspace_id
                || epochs[i].file_id != file_id {
            assert(epochs[last].keyspace_id != keyspace_id || epochs[last].file_id != file_id);
            assert forall|i: int| 0 <= i < fewer.len() implies (#[trigger] fewer[i]).keyspace_id
                != keyspace_id || fewer[i].file_id != file_id by {
                assert(fewer[i] == epochs[i]);
            }
        }
    }
}

/// A publish makes of each record the extent of a file that reads the record's bytes
/// from where its log has them.
pub proof fn law_extents_read_what_records_hold(
    records: Seq<AppendStreamRunRecord>,
    i: int,
    byte: int,
)
    requires
        0 <= i < records.len(),
    ensures
        extents_of(records).len() == records.len(),
        extents_of(records)[i].file_offset_start == records[i].offset,
        extents_of(records)[i].payload_len == records[i].len,
        extents_of(records)[i].run.storage_node == records[i].run.storage_node,
        extents_of(records)[i].run.log_id == records[i].run.log_id,
        extents_of(records)[i].run.log_payload_offset == records[i].run.log_payload_offset,
        extents_of(records)[i].run.integrity == records[i].run.integrity,
{
}

/// A record that is cut at a place holds up to there what it held, from the same
/// bytes of its log, and no byte behind; one that ends before it stays whole.
pub proof fn law_cut_record_holds_its_first_bytes(
    record: AppendStreamRunRecord,
    through: int,
    logs: RunLogMap,
    byte: int,
)
    requires
        record.offset < through <= u64::MAX,
        record.offset + record.len <= u64::MAX,
        record.run.log_payload_offset + record.len <= u64::MAX,
    ensures
        ({
            let cut = record_up_to(record, through);
            &&& cut.offset == record.offset
            &&& cut.offset + cut.len <= through
            &&& cut.offset + cut.len == through || cut == record
            &&& cut.ticket_id == record.ticket_id
            &&& record.offset <= byte < cut.offset + cut.len ==> record_byte(logs, cut, byte)
                == record_byte(logs, record, byte)
        }),
{
}

/// A token opens a stream only while the stream is active and all that the token says
/// of it holds.
pub proof fn law_token_opens_only_its_stream(
    streams: Map<u128, LiveAppendStream>,
    token: AppendStream,
)
    ensures
        token_open(streams, token) <==> {
            &&& streams.contains_key(token.stream_id.0)
            &&& streams[token.stream_id.0].state.status == AppendStreamStatus::Active
            &&& streams[token.stream_id.0].state.stream_id == token.stream_id
            &&& streams[token.stream_id.0].state.keyspace_id == token.keyspace_id
            &&& streams[token.stream_id.0].state.file_id == token.file_id
            &&& streams[token.stream_id.0].state.writer_epoch == token.writer_epoch
            &&& streams[token.stream_id.0].state.base_version == token.base_version
            &&& streams[token.stream_id.0].state.visible_base_size == token.visible_base_size
        },
{
}

/// A log that was found again for a segment is known with at least the bytes up to
/// the end of the segment's record, and not further than the last such record.
pub proof fn law_recovered_log_reaches_its_records(
    wanted: Seq<WantedSegment>,
    found: Seq<Option<FoundSegmentRecord>>,
    log: DurableDataLogRef,
)
    requires
        wanted.len() <= found.len(),
    ensures
        recovered_manifest(wanted, found, log) is Some <==> exists|i: int|
            0 <= i < wanted.len() && record_in_log(#[trigger] wanted[i], found[i]->0, log),
        forall|i: int|
            0 <= i < wanted.len() && record_in_log(#[trigger] wanted[i], found[i]->0, log)
                ==> recovered_manifest(wanted, found, log)->0.total_bytes
                >= (found[i]->0).physical_record_end,
        recovered_manifest(wanted, found, log) matches Some(manifest) ==> exists|i: int|
            0 <= i < wanted.len() && record_in_log(#[trigger] wanted[i], found[i]->0, log)
                && manifest.total_bytes == (found[i]->0).physical_record_end,
    decreases wanted.len(),
{
    if wanted.len() > 0 {
        let last = wanted.len() - 1;
        let fewer = wanted.drop_last();
        let before = recovered_manifest(fewer, found, log);
        let now = recovered_manifest(wanted, found, log);
        assert(wanted.last() == wanted[last]);
        law_recovered_log_reaches_its_records(fewer, found, log);
        assert forall|i: int|
            0 <= i < wanted.len() && record_in_log(#[trigger] wanted[i], found[i]->0, log) implies
            now is Some && now->0.total_bytes >= (found[i]->0).physical_record_end by {
            if i < last {
                assert(fewer[i] == wanted[i]);
            }
        }
        if now is Some {
            if record_in_log(wanted[last], found[last]->0, log) && now->0.total_bytes
                == (found[last]->0).physical_record_end {
            } else {
                assert(before is Some);
                let i = choose|i: int|
                    0 <= i < fewer.len() && record_in_log(#[trigger] fewer[i], found[i]->0, log)
                        && before->0.total_bytes == (found[i]->0).physical_record_end;
                assert(wanted[i] == fewer[i]);
            }
        }
    }
}

/// Whether the record that was found for a segment is in a log.
pub open spec fn record_in_log(
    wanted: WantedSegment,
    found: FoundSegmentRecord,
    log: DurableDataLogRef,
) -> bool {
    wanted.storage_node == log.storage_node && found.placement.data_log_id == log.log_id
}

/// The bytes of fragments follow each other: those of two lists are those of the
/// first, then those of the second, and one fragment has its part of its payload.
pub proof fn law_fragments_follow_each_other(
    first: Seq<BlockJournalInlineFragment>,
    second: Seq<BlockJournalInlineFragment>,
)
    ensures
        fragment_bytes(first + second) == fragment_bytes(first) + fragment_bytes(second),
        first.len() == 1 ==> fragment_bytes(first) == first[0].part(),
    decreases second.len(),
{
    if second.len() == 0 {
        assert(first + second =~= first);
        assert(fragment_bytes(first) + fragment_bytes(second) =~= fragment_bytes(first));
    } else {
        assert((first + second).drop_last() =~= first + second.drop_last());
        assert((first + second).last() == second.last());
        law_fragments_follow_each_other(first, second.drop_last());
        assert(fragment_bytes(first + second) =~= fragment_bytes(first) + fragment_bytes(second));
    }
    if first.len() == 1 {
        assert(first.drop_last().len() == 0);
        assert(fragment_bytes(first.drop_last()) =~= Seq::<u8>::empty());
        assert(fragment_bytes(first) =~= first[0].part());
    }
}

/// Whether two runs that touch could be one: both are zeroes, or both are inline
/// bytes under one policy.
pub open spec fn could_be_one(left: JournalRun, right: JournalRun) -> bool {
    &&& left.range.offset + left.range.len == right.range.offset
    &&& match (left.kind, right.kind) {
        (SourceKind::Zero, SourceKind::Zero) => true,
        (
            SourceKind::Inline { payload_integrity },
            SourceKind::Inline { payload_integrity: other },
        ) => payload_integrity == other,
        _ => false,
    }
}

/// The runs of a commit are joined wherever one could be: no run could be one with
/// the run behind it.
pub proof fn law_neighbouring_runs_are_joined(entries: Seq<BlockJournalEntry>, i: int, j: int)
    requires
        0 <= i,
        j == i + 1,
        j < coalesced_runs(entries).len(),
    ensures
        !could_be_one(coalesced_runs(entries)[i], coalesced_runs(entries)[j]),
    decreases entries.len(),
{
    if entries.len() > 0 {
        let before = coalesced_runs(entries.drop_last());
        let run = run_of_entry(entries.last());
        if before.len() > 0 && continues(
            before.last().range,
            before.last().kind,
            run.range,
            run.kind,
        ) {
            assert(before[before.len() - 1] == before.last());
            law_neighbouring_runs_are_joined(entries.drop_last(), i, j);
        } else if j < before.len() {
            law_neighbouring_runs_are_joined(entries.drop_last(), i, j);
        } else {
            assert(before[before.len() - 1] == before.last());
        }
    }
}

} // verus!
