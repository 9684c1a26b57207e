//! What the rows of an export are for: the durable copy lacks nothing after them.
use vstd::prelude::*;

use crate::codec::DurableEncode;
use crate::export_cursor::DurableExportCursor;
use crate::id::{DeviceId, KeyspaceId, ShardId};
use crate::idmap::IdMap;
use crate::metadata::MetadataInner;
use crate::metadata_records::{DeviceHead, KeyspaceCommit, KeyspaceHead, ShardCommit};
use crate::persist_rows::{
    DurableTimelineRow, keyspace_shard_latest, keyspace_shard_row, keyspace_shard_rows_of,
    law_decimal_tells_numbers_apart, shard_key, shard_latest, shard_row,
};
use crate::row_sync::{
    HeadRows, KeyspaceHeadRows, NativeStateRows, TableRows, drops_history, key_views,
    keyspace_rows_of, keyspace_shard_values, law_new_rows_are_written, map_puts, none_exported,
    number_keys, row_views, shard_rows_of, shard_values, timeline_puts,
};
use crate::text::decimal;

verus! {

/// Whether the rows of an export hold a row under a key.
pub open spec fn writes_row(table: TableRows, key: Seq<char>, payload: Seq<u8>) -> bool {
    row_views(table.puts@).contains((key, payload))
}

/// Whether a key is among those that stay.
pub open spec fn keeps_key(table: TableRows, key: Seq<char>) -> bool {
    table.kept matches Some(kept) ==> key_views(kept@).contains(key)
}

/// Whether a key and a payload are those of a row that is not from before a commit.
pub open spec fn is_new_row<T: DurableEncode + DurableTimelineRow>(
    rows: Seq<T>,
    since: u64,
    put: (Seq<char>, Seq<u8>),
) -> bool {
    exists|i: int|
        0 <= i < rows.len() && (#[trigger] rows[i]).seq_of() >= since && put == (
            rows[i].key_of(),
            rows[i].wire(),
        )
}

/// Whether a key and a payload are those of a row with a number from one on.
pub open spec fn is_new_entry<T: DurableEncode>(
    keys: Seq<u128>,
    rows: Map<u128, T>,
    since: u128,
    put: (Seq<char>, Seq<u8>),
) -> bool {
    exists|i: int|
        0 <= i < keys.len() && (#[trigger] keys[i]) >= since && put == (
            decimal(keys[i] as nat),
            rows[keys[i]].wire(),
        )
}

proof fn lemma_timeline_puts<T: DurableEncode + DurableTimelineRow>(rows: Seq<T>, since: u64)
    ensures
        forall|i: int|
            0 <= i < rows.len() && (#[trigger] rows[i]).seq_of() >= since ==> timeline_puts(
                rows,
                since,
            ).contains((rows[i].key_of(), rows[i].wire())),
        forall|k: int|
            0 <= k < timeline_puts(rows, since).len() ==> is_new_row(
                rows,
                since,
                #[trigger] timeline_puts(rows, since)[k],
            ),
    decreases rows.len(),
{
    if rows.len() > 0 {
        let fewer = rows.drop_last();
        let (before, all) = (timeline_puts(fewer, since), timeline_puts(rows, since));
        lemma_timeline_puts(fewer, since);
        assert(rows[rows.len() - 1] == rows.last());
        assert forall|i: int|
            0 <= i < rows.len() && (#[trigger] rows[i]).seq_of() >= since implies all.contains(
            (rows[i].key_of(), rows[i].wire()),
        ) by {
            let row = (rows[i].key_of(), rows[i].wire());
            if i < fewer.len() {
                assert(fewer[i] == rows[i]);
                let k = before.index_of(row);
                assert(all[k] == row);
            } else {
                assert(all[all.len() - 1] == row);
            }
        }
        assert forall|k: int| 0 <= k < all.len() implies is_new_row(
            rows,
            since,
            #[trigger] all[k],
        ) by {
            if k < before.len() {
                assert(all[k] == before[k]);
                assert(is_new_row(fewer, since, before[k]));
                let i = choose|i: int|
                    0 <= i < fewer.len() && (#[trigger] fewer[i]).seq_of() >= since && before[k]
                        == (fewer[i].key_of(), fewer[i].wire());
                assert(rows[i] == fewer[i]);
            } else {
                assert(rows[rows.len() - 1].seq_of() >= since);
            }
        }
    }
}

/// Every row of a timeline that is not from before a commit is written, under its
/// key and as it is, and no other is; where the table loses rows, it keeps all those
/// of the timeline and no others.
pub proof fn law_timeline_rows_are_written<T: DurableEncode + DurableTimelineRow>(
    table: TableRows,
    rows: Seq<T>,
    since: u64,
    prune: bool,
)
    requires
        table.is_timeline(rows, since, prune),
    ensures
        forall|i: int|
            0 <= i < rows.len() && (#[trigger] rows[i]).seq_of() >= since ==> writes_row(
                table,
                rows[i].key_of(),
                rows[i].wire(),
            ),
        forall|key: Seq<char>, payload: Seq<u8>| #[trigger]
            writes_row(table, key, payload) ==> exists|i: int|
                0 <= i < rows.len() && (#[trigger] rows[i]).seq_of() >= since && key
                    == rows[i].key_of() && payload == rows[i].wire(),
        table.kept is Some <==> prune,
        forall|i: int| 0 <= i < rows.len() ==> keeps_key(table, (#[trigger] rows[i]).key_of()),
        forall|key: Seq<char>|
            prune && #[trigger] keeps_key(table, key) ==> exists|i: int|
                0 <= i < rows.len() && (#[trigger] rows[i]).key_of() == key,
{
    lemma_timeline_puts(rows, since);
    let puts = timeline_puts(rows, since);
    assert forall|key: Seq<char>, payload: Seq<u8>| #[trigger]
        writes_row(table, key, payload) implies exists|i: int|
        0 <= i < rows.len() && (#[trigger] rows[i]).seq_of() >= since && key == rows[i].key_of()
            && payload == rows[i].wire() by {
        let k = puts.index_of((key, payload));
        assert(puts[k] == (key, payload));
        assert(is_new_row(rows, since, puts[k]));
    }
    let keys = rows.map_values(|row: T| row.key_of());
    assert forall|i: int| 0 <= i < rows.len() implies keeps_key(
        table,
        (#[trigger] rows[i]).key_of(),
    ) by {
        assert(keys[i] == rows[i].key_of());
    }
    assert forall|key: Seq<char>| prune && #[trigger] keeps_key(table, key) implies exists|i: int|
        0 <= i < rows.len() && (#[trigger] rows[i]).key_of() == key by {
        let i = keys.index_of(key);
        assert(keys[i] == rows[i].key_of());
    }
}

proof fn lemma_map_puts<T: DurableEncode>(keys: Seq<u128>, rows: Map<u128, T>, since: u128)
    ensures
        forall|k: int|
            0 <= k < map_puts(keys, rows, since).len() ==> is_new_entry(
                keys,
                rows,
                since,
                #[trigger] map_puts(keys, rows, since)[k],
            ),
    decreases keys.len(),
{
    if keys.len() > 0 {
        let fewer = keys.drop_last();
        let (before, all) = (map_puts(fewer, rows, since), map_puts(keys, rows, since));
        lemma_map_puts(fewer, rows, since);
        assert forall|k: int| 0 <= k < all.len() implies is_new_entry(
            keys,
            rows,
            since,
            #[trigger] all[k],
        ) by {
            if k < before.len() {
                assert(all[k] == before[k]);
                assert(is_new_entry(fewer, rows, since, before[k]));
                let i = choose|i: int|
                    0 <= i < fewer.len() && (#[trigger] fewer[i]) >= since && before[k] == (
                        decimal(fewer[i] as nat),
                        rows[fewer[i]].wire(),
                    );
                assert(keys[i] == fewer[i]);
            } else {
                assert(keys[keys.len() - 1] >= since);
            }
        }
    }
}

/// Every row of a map with a number that was not used up before is written, under its
/// number and as it is, and no other is; where the table loses rows, it keeps all
/// those of the map and no others.
pub proof fn law_map_rows_are_written<T: DurableEncode>(
    table: TableRows,
    rows: IdMap<T>,
    since: u128,
    prune: bool,
)
    requires
        table.is_map(&rows, since, prune),
    ensures
        forall|id: u128|
            #[trigger] rows@.contains_key(id) && id >= since ==> writes_row(
                table,
                decimal(id as nat),
                rows@[id].wire(),
            ),
        forall|key: Seq<char>, payload: Seq<u8>| #[trigger]
            writes_row(table, key, payload) ==> exists|id: u128| #[trigger]
                rows@.contains_key(id) && id >= since && key == decimal(id as nat) && payload
                    == rows@[id].wire(),
        table.kept is Some <==> prune,
        forall|id: u128| #[trigger]
            rows@.contains_key(id) ==> keeps_key(table, decimal(id as nat)),
        forall|key: Seq<char>|
            prune && #[trigger] keeps_key(table, key) ==> exists|id: u128| #[trigger]
                rows@.contains_key(id) && key == decimal(id as nat),
{
    let keys = rows.keys();
    lemma_map_puts(keys, rows@, since);
    let puts = map_puts(keys, rows@, since);
    assert forall|id: u128| #[trigger] rows@.contains_key(id) && id >= since implies writes_row(
        table,
        decimal(id as nat),
        rows@[id].wire(),
    ) by {
        law_new_rows_are_written(table, rows, since, prune, id);
    }
    assert forall|key: Seq<char>, payload: Seq<u8>| #[trigger]
        writes_row(table, key, payload) implies exists|id: u128| #[trigger]
        rows@.contains_key(id) && id >= since && key == decimal(id as nat) && payload
            == rows@[id].wire() by {
        let k = puts.index_of((key, payload));
        assert(puts[k] == (key, payload));
        assert(is_new_entry(keys, rows@, since, puts[k]));
        let i = choose|i: int|
            0 <= i < keys.len() && (#[trigger] keys[i]) >= since && puts[k] == (
                decimal(keys[i] as nat),
                rows@[keys[i]].wire(),
            );
        assert(rows@.contains_key(keys[i]));
    }
    let names = number_keys(keys);
    assert forall|id: u128| #[trigger] rows@.contains_key(id) implies keeps_key(
        table,
        decimal(id as nat),
    ) by {
        assert(keys.contains(id));
        let i = keys.index_of(id);
        assert(names[i] == decimal(id as nat));
    }
    assert forall|key: Seq<char>| prune && #[trigger] keeps_key(table, key) implies exists|id: u128|
        #[trigger] rows@.contains_key(id) && key == decimal(id as nat) by {
        let i = names.index_of(key);
        assert(names[i] == decimal(keys[i] as nat));
        assert(rows@.contains_key(keys[i]));
    }
}

/// A table of the durable copy after the rows of an export were written to it and
/// the rows that it loses were taken out.
pub open spec fn applied(
    stored: Map<Seq<char>, Seq<u8>>,
    table: TableRows,
    after: Map<Seq<char>, Seq<u8>>,
) -> bool {
    forall|key: Seq<char>| #[trigger]
        after.contains_key(key) <==> (stored.contains_key(key) || exists|payload: Seq<u8>|
            #[trigger] writes_row(table, key, payload)) && keeps_key(table, key)
}

/// Whether what a table holds after an export is what was written last.
pub open spec fn applied_values(
    stored: Map<Seq<char>, Seq<u8>>,
    table: TableRows,
    after: Map<Seq<char>, Seq<u8>>,
) -> bool {
    forall|key: Seq<char>| #[trigger]
        after.contains_key(key) ==> if exists|payload: Seq<u8>| #[trigger]
            writes_row(table, key, payload) {
            writes_row(table, key, after[key])
        } else {
            after[key] == stored[key]
        }
}

/// A table that held every row of a map with a number that was used up before holds
/// all rows of the map after an export, and just those where it loses rows.
pub proof fn law_exported_map_is_whole<T: DurableEncode>(
    stored: Map<Seq<char>, Seq<u8>>,
    table: TableRows,
    after: Map<Seq<char>, Seq<u8>>,
    rows: IdMap<T>,
    since: u128,
    prune: bool,
)
    requires
        table.is_map(&rows, since, prune),
        applied(stored, table, after),
        applied_values(stored, table, after),
        forall|id: u128|
            #[trigger] rows@.contains_key(id) && id < since ==> stored.contains_key(
                decimal(id as nat),
            ) && stored[decimal(id as nat)] == rows@[id].wire(),
    ensures
        forall|id: u128| #[trigger]
            rows@.contains_key(id) ==> after.contains_key(decimal(id as nat))
                && after[decimal(id as nat)] == rows@[id].wire(),
        forall|key: Seq<char>|
            prune && #[trigger] after.contains_key(key) ==> exists|id: u128| #[trigger]
                rows@.contains_key(id) && key == decimal(id as nat),
{
    law_map_rows_are_written(table, rows, since, prune);
    assert forall|id: u128| #[trigger] rows@.contains_key(id) implies after.contains_key(
        decimal(id as nat),
    ) && after[decimal(id as nat)] == rows@[id].wire() by {
        let key = decimal(id as nat);
        if id >= since {
            assert(writes_row(table, key, rows@[id].wire()));
        }
        assert(after.contains_key(key));
        if exists|payload: Seq<u8>| #[trigger] writes_row(table, key, payload) {
            assert(writes_row(table, key, after[key]));
            let other = choose|other: u128| #[trigger]
                rows@.contains_key(other) && other >= since && key == decimal(other as nat)
                    && after[key] == rows@[other].wire();
            law_decimal_tells_numbers_apart(id as nat, other as nat);
        }
    }
}

/// Whether a number was not used up at the last export, if there was one.
pub open spec fn since_export(previous: Option<&DurableExportCursor>, used: spec_fn(
    DurableExportCursor,
) -> int, number: int) -> bool {
    match previous {
        Some(cursor) => number >= used(*cursor),
        None => true,
    }
}

/// An export writes every record of the history that the last one did not have: each
/// commit of a shard, a keyspace or a file from the first commit on that was not
/// exported, and each node, catalog shard, keyspace root, commit group, checkpoint,
/// fork and deletion with a number that was not used up then. The first export writes
/// all of them.
pub proof fn law_export_writes_what_is_new(
    rows: NativeStateRows,
    metadata: MetadataInner,
    previous: Option<&DurableExportCursor>,
)
    requires
        rows.are(&metadata, previous),
    ensures
        forall|i: int|
            0 <= i < metadata.shard_commits@.len() && since_export(
                previous,
                |cursor: DurableExportCursor| cursor.next_commit_seq as int,
                (#[trigger] metadata.shard_commits@[i]).commit_seq.0 as int,
            ) ==> writes_row(
                rows.shard_commits,
                metadata.shard_commits@[i].key_of(),
                metadata.shard_commits@[i].wire(),
            ),
        forall|i: int|
            0 <= i < metadata.keyspace_commits@.len() && since_export(
                previous,
                |cursor: DurableExportCursor| cursor.next_commit_seq as int,
                (#[trigger] metadata.keyspace_commits@[i]).commit_seq.0 as int,
            ) ==> writes_row(
                rows.keyspace_commits,
                metadata.keyspace_commits@[i].key_of(),
                metadata.keyspace_commits@[i].wire(),
            ),
        forall|i: int|
            0 <= i < metadata.file_commits@.len() && since_export(
                previous,
                |cursor: DurableExportCursor| cursor.next_commit_seq as int,
                (#[trigger] metadata.file_commits@[i]).commit_seq.0 as int,
            ) ==> writes_row(
                rows.file_commits,
                metadata.file_commits@[i].key_of(),
                metadata.file_commits@[i].wire(),
            ),
        forall|id: u128|
            #[trigger] metadata.trees.nodes@.contains_key(id) && since_export(
                previous,
                |cursor: DurableExportCursor| cursor.next_metadata_node_id as int,
                id as int,
            ) ==> writes_row(
                rows.metadata_nodes,
                decimal(id as nat),
                metadata.trees.nodes@[id].wire(),
            ),
        forall|id: u128|
            #[trigger] metadata.keyspace_catalog_shards@.contains_key(id) && since_export(
                previous,
                |cursor: DurableExportCursor| cursor.next_keyspace_catalog_shard_id as int,
                id as int,
            ) ==> writes_row(
                rows.keyspace_catalog_shards,
                decimal(id as nat),
                metadata.keyspace_catalog_shards@[id].wire(),
            ),
        forall|id: u128|
            #[trigger] metadata.keyspace_roots@.contains_key(id) && since_export(
                previous,
                |cursor: DurableExportCursor| cursor.next_keyspace_root_id as int,
                id as int,
            ) ==> writes_row(
                rows.keyspace_roots,
                decimal(id as nat),
                metadata.keyspace_roots@[id].wire(),
            ),
        forall|id: u128|
            #[trigger] metadata.commit_groups@.contains_key(id) && since_export(
                previous,
                |cursor: DurableExportCursor| cursor.next_commit_group_id as int,
                id as int,
            ) ==> writes_row(
                rows.commit_groups,
                decimal(id as nat),
                metadata.commit_groups@[id].wire(),
            ),
        forall|id: u128|
            #[trigger] metadata.checkpoints@.contains_key(id) && since_export(
                previous,
                |cursor: DurableExportCursor| cursor.next_checkpoint_id as int,
                id as int,
            ) ==> writes_row(
                rows.checkpoints,
                decimal(id as nat),
                metadata.checkpoints@[id].wire(),
            ),
        forall|id: u128|
            #[trigger] metadata.fork_records@.contains_key(id) && since_export(
                previous,
                |cursor: DurableExportCursor| cursor.next_commit_seq as int,
                id as int,
            ) ==> writes_row(
                rows.fork_records,
                decimal(id as nat),
                metadata.fork_records@[id].wire(),
            ),
        forall|id: u128|
            #[trigger] metadata.delete_records@.contains_key(id) && since_export(
                previous,
                |cursor: DurableExportCursor| cursor.next_commit_seq as int,
                id as int,
            ) ==> writes_row(
                rows.delete_records,
                decimal(id as nat),
                metadata.delete_records@[id].wire(),
            ),
{
    let prune = drops_history(previous, metadata.next_gc_epoch);
    let from = match previous {
        Some(cursor) => *cursor,
        None => none_exported(),
    };
    let seq = from.next_commit_seq;
    law_timeline_rows_are_written(rows.shard_commits, metadata.shard_commits@, seq, prune);
    law_timeline_rows_are_written(rows.keyspace_commits, metadata.keyspace_commits@, seq, prune);
    law_timeline_rows_are_written(rows.file_commits, metadata.file_commits@, seq, prune);
    law_map_rows_are_written(
        rows.metadata_nodes,
        metadata.trees.nodes,
        from.next_metadata_node_id,
        prune,
    );
    law_map_rows_are_written(
        rows.keyspace_catalog_shards,
        metadata.keyspace_catalog_shards,
        from.next_keyspace_catalog_shard_id,
        prune,
    );
    law_map_rows_are_written(
        rows.keyspace_roots,
        metadata.keyspace_roots,
        from.next_keyspace_root_id,
        prune,
    );
    law_map_rows_are_written(
        rows.commit_groups,
        metadata.commit_groups,
        from.next_commit_group_id,
        prune,
    );
    law_map_rows_are_written(
        rows.checkpoints,
        metadata.checkpoints,
        from.next_checkpoint_id,
        prune,
    );
    law_map_rows_are_written(rows.fork_records, metadata.fork_records, seq as u128, prune);
    law_map_rows_are_written(rows.delete_records, metadata.delete_records, seq as u128, prune);
}

/// Every export writes all specs of devices, all streams and all marks, and takes out
/// those that are gone.
pub proof fn law_export_rewrites_what_changes(
    rows: NativeStateRows,
    metadata: MetadataInner,
    previous: Option<&DurableExportCursor>,
)
    requires
        rows.are(&metadata, previous),
    ensures
        forall|id: u128| #[trigger]
            metadata.device_specs@.contains_key(id) ==> writes_row(
                rows.device_specs,
                decimal(id as nat),
                metadata.device_specs@[id].wire(),
            ),
        forall|id: u128| #[trigger]
            metadata.append_streams@.contains_key(id) ==> writes_row(
                rows.append_streams,
                decimal(id as nat),
                metadata.append_streams@[id].wire(),
            ),
        forall|id: u128| #[trigger]
            metadata.metadata_last_mark_epoch@.contains_key(id) ==> writes_row(
                rows.metadata_gc_marks,
                decimal(id as nat),
                metadata.metadata_last_mark_epoch@[id].wire(),
            ),
        forall|id: u128| #[trigger]
            metadata.segment_last_mark_epoch@.contains_key(id) ==> writes_row(
                rows.segment_gc_marks,
                decimal(id as nat),
                metadata.segment_last_mark_epoch@[id].wire(),
            ),
        forall|key: Seq<char>| #[trigger]
            keeps_key(rows.device_specs, key) ==> exists|id: u128| #[trigger]
                metadata.device_specs@.contains_key(id) && key == decimal(id as nat),
        forall|key: Seq<char>| #[trigger]
            keeps_key(rows.append_streams, key) ==> exists|id: u128| #[trigger]
                metadata.append_streams@.contains_key(id) && key == decimal(id as nat),
{
    law_map_rows_are_written(rows.device_specs, metadata.device_specs, 0, true);
    law_map_rows_are_written(rows.append_streams, metadata.append_streams, 0, true);
    law_map_rows_are_written(rows.metadata_gc_marks, metadata.metadata_last_mark_epoch, 0, true);
    law_map_rows_are_written(rows.segment_gc_marks, metadata.segment_last_mark_epoch, 0, true);
}

proof fn lemma_shard_rows_of(
    keys: Seq<u128>,
    heads: Map<u128, DeviceHead>,
    commits: Seq<ShardCommit>,
    at: int,
    shard: int,
)
    requires
        0 <= at < keys.len(),
        0 <= shard < heads[keys[at]].shard_roots@.len(),
    ensures
        shard_rows_of(keys, heads, commits).contains(shard_row(heads[keys[at]], commits, shard)),
    decreases keys.len(),
{
    let fewer = keys.drop_last();
    let before = shard_rows_of(fewer, heads, commits);
    let all = shard_rows_of(keys, heads, commits);
    let row = shard_row(heads[keys[at]], commits, shard);
    if at < fewer.len() {
        assert(fewer[at] == keys[at]);
        lemma_shard_rows_of(fewer, heads, commits, at, shard);
        let k = before.index_of(row);
        assert(all[k] == row);
    } else {
        assert(all[before.len() + shard] == row);
    }
}

/// For every shard of every device a row with its root and the device's generation is
/// written, under the shard's own key.
pub proof fn law_device_heads_are_written(
    rows: HeadRows,
    heads: IdMap<DeviceHead>,
    commits: Seq<ShardCommit>,
    id: u128,
    shard: int,
)
    requires
        rows.is_of(&heads, commits),
        heads@.contains_key(id),
        0 <= shard < heads@[id].shard_roots@.len(),
        shard <= u32::MAX,
    ensures
        exists|k: int|
            0 <= k < rows.shards@.len() && {
                let row = (#[trigger] rows.shards@[k]).1;
                &&& row.device_id == heads@[id].device_id
                &&& row.shard_id.0 == shard
                &&& row.root == heads@[id].shard_roots@[shard]
                &&& row.generation == heads@[id].generation
                &&& rows.shards@[k].0@ == shard_key(heads@[id].device_id.0, shard as u32)
            },
        exists|k: int|
            0 <= k < rows.manifests@.len() && (#[trigger] rows.manifests@[k]).0@ == decimal(
                id as nat,
            ) && rows.manifests@[k].1.shard_count == heads@[id].shard_roots@.len() as u64,
{
    let keys = heads.keys();
    assert(keys.contains(id));
    let at = keys.index_of(id);
    lemma_shard_rows_of(keys, heads@, commits, at, shard);
    let values = shard_values(rows.shards@);
    let row = shard_row(heads@[id], commits, shard);
    let k = values.index_of(row);
    assert(values[k] == rows.shards@[k].1);
    assert(rows.manifests@[at].0@ == decimal(keys[at] as nat));
}

/// The last commit of a shard comes from one of its commits, and none of them is later.
pub proof fn law_shard_latest_is_the_last(
    commits: Seq<ShardCommit>,
    device_id: DeviceId,
    shard_id: ShardId,
)
    ensures
        forall|i: int|
            0 <= i < commits.len() && (#[trigger] commits[i]).device_id == device_id
                && commits[i].shard_id == shard_id ==> commits[i].commit_seq.0 <= shard_latest(
                commits,
                device_id,
                shard_id,
            ).0,
        shard_latest(commits, device_id, shard_id).0 > 0 ==> exists|i: int|
            0 <= i < commits.len() && (#[trigger] commits[i]).device_id == device_id
                && commits[i].shard_id == shard_id && commits[i].commit_seq == shard_latest(
                commits,
                device_id,
                shard_id,
            ),
    decreases commits.len(),
{
    if commits.len() > 0 {
        let fewer = commits.drop_last();
        law_shard_latest_is_the_last(fewer, device_id, shard_id);
        assert(commits[commits.len() - 1] == commits.last());
        let (before, now) = (
            shard_latest(fewer, device_id, shard_id),
            shard_latest(commits, device_id, shard_id),
        );
        assert forall|i: int|
            0 <= i < commits.len() && (#[trigger] commits[i]).device_id == device_id
                && commits[i].shard_id == shard_id implies commits[i].commit_seq.0 <= now.0 by {
            if i < fewer.len() {
                assert(fewer[i] == commits[i]);
            }
        }
        if now.0 > 0 {
            if now == before {
                let i = choose|i: int|
                    0 <= i < fewer.len() && (#[trigger] fewer[i]).device_id == device_id
                        && fewer[i].shard_id == shard_id && fewer[i].commit_seq == before;
                assert(commits[i] == fewer[i]);
            } else {
                assert(commits[commits.len() - 1].commit_seq == now);
            }
        }
    }
}

proof fn lemma_keyspace_rows_from(
    head: KeyspaceHead,
    commits: Seq<KeyspaceCommit>,
    count: nat,
    shard: int,
)
    requires
        0 <= shard < count,
    ensures
        keyspace_shard_rows_of(head, commits, true, count).contains(
            keyspace_shard_row(head, commits, shard),
        ),
    decreases count,
{
    let fewer = (count - 1) as nat;
    let before = keyspace_shard_rows_of(head, commits, true, fewer);
    let all = keyspace_shard_rows_of(head, commits, true, count);
    let row = keyspace_shard_row(head, commits, shard);
    if shard < fewer {
        lemma_keyspace_rows_from(head, commits, fewer, shard);
        let k = before.index_of(row);
        assert(all[k] == row);
    } else {
        assert(all[before.len() as int] == row);
    }
}

proof fn lemma_keyspace_rows_of(
    keys: Seq<u128>,
    heads: Map<u128, KeyspaceHead>,
    commits: Seq<KeyspaceCommit>,
    at: int,
    shard: int,
)
    requires
        0 <= at < keys.len(),
        0 <= shard < heads[keys[at]].shard_roots@.len(),
    ensures
        keyspace_rows_of(keys, heads, commits, true).contains(
            keyspace_shard_row(heads[keys[at]], commits, shard),
        ),
    decreases keys.len(),
{
    let fewer = keys.drop_last();
    let before = keyspace_rows_of(fewer, heads, commits, true);
    let all = keyspace_rows_of(keys, heads, commits, true);
    let row = keyspace_shard_row(heads[keys[at]], commits, shard);
    if at < fewer.len() {
        assert(fewer[at] == keys[at]);
        lemma_keyspace_rows_of(fewer, heads, commits, at, shard);
        let k = before.index_of(row);
        assert(all[k] == row);
    } else {
        let own = keyspace_shard_rows_of(
            heads[keys.last()],
            commits,
            true,
            heads[keys.last()].shard_roots@.len(),
        );
        lemma_keyspace_rows_from(
            heads[keys.last()],
            commits,
            heads[keys.last()].shard_roots@.len(),
            shard,
        );
        let k = own.index_of(row);
        assert(all[before.len() + k] == row);
    }
}

/// For every catalog shard of every keyspace a row with its root and the keyspace's
/// generation is written, and for every keyspace the number of its files.
pub proof fn law_keyspace_heads_are_written(
    rows: KeyspaceHeadRows,
    heads: IdMap<KeyspaceHead>,
    commits: Seq<KeyspaceCommit>,
    id: u128,
    shard: int,
)
    requires
        rows.is_of(&heads, commits, true),
        heads@.contains_key(id),
        0 <= shard < heads@[id].shard_roots@.len(),
        shard <= u32::MAX,
    ensures
        exists|k: int|
            0 <= k < rows.shards@.len() && {
                let row = (#[trigger] rows.shards@[k]).1;
                &&& row.keyspace_id == heads@[id].keyspace_id
                &&& row.shard_index == shard
                &&& row.root == heads@[id].shard_roots@[shard]
                &&& row.generation == heads@[id].generation
                &&& rows.shards@[k].0@ == shard_key(heads@[id].keyspace_id.0, shard as u32)
            },
        exists|k: int|
            0 <= k < rows.manifests@.len() && (#[trigger] rows.manifests@[k]).0@ == decimal(
                id as nat,
            ) && rows.manifests@[k].1.shard_count == heads@[id].shard_roots@.len() as u64
                && rows.manifests@[k].1.file_count == heads@[id].file_count,
{
    let keys = heads.keys();
    assert(keys.contains(id));
    let at = keys.index_of(id);
    lemma_keyspace_rows_of(keys, heads@, commits, at, shard);
    let values = keyspace_shard_values(rows.shards@);
    let row = keyspace_shard_row(heads@[id], commits, shard);
    let k = values.index_of(row);
    assert(values[k] == rows.shards@[k].1);
    assert(rows.manifests@[at].0@ == decimal(keys[at] as nat));
}

/// The last commit of a catalog shard comes from one of its commits, and none of them
/// is later.
pub proof fn law_keyspace_shard_latest_is_the_last(
    commits: Seq<KeyspaceCommit>,
    keyspace_id: KeyspaceId,
    shard_index: u32,
)
    ensures
        forall|i: int|
            0 <= i < commits.len() && (#[trigger] commits[i]).keyspace_id == keyspace_id
                && commits[i].shard_index == shard_index ==> (keyspace_shard_latest(
                commits,
                keyspace_id,
                shard_index,
            ) matches Some(latest) && commits[i].commit_seq.0 <= latest.0),
        keyspace_shard_latest(commits, keyspace_id, shard_index) matches Some(latest) ==> exists|
            i: int,
        |
            0 <= i < commits.len() && (#[trigger] commits[i]).keyspace_id == keyspace_id
                && commits[i].shard_index == shard_index && commits[i].commit_seq == latest,
    decreases commits.len(),
{
    if commits.len() > 0 {
        let fewer = commits.drop_last();
        law_keyspace_shard_latest_is_the_last(fewer, keyspace_id, shard_index);
        assert(commits[commits.len() - 1] == commits.last());
        let (before, now) = (
            keyspace_shard_latest(fewer, keyspace_id, shard_index),
            keyspace_shard_latest(commits, keyspace_id, shard_index),
        );
        assert forall|i: int|
            0 <= i < commits.len() && (#[trigger] commits[i]).keyspace_id == keyspace_id
                && commits[i].shard_index == shard_index implies (now matches Some(latest)
            && commits[i].commit_seq.0 <= latest.0) by {
            if i < fewer.len() {
                assert(fewer[i] == commits[i]);
            }
        }
        if now is Some {
            if now == before {
                let i = choose|i: int|
                    0 <= i < fewer.len() && (#[trigger] fewer[i]).keyspace_id == keyspace_id
                        && fewer[i].shard_index == shard_index && fewer[i].commit_seq == before->0;
                assert(commits[i] == fewer[i]);
            } else {
                assert(commits[commits.len() - 1].commit_seq == now->0);
            }
        }
    }
}

} // verus!
