//! The rows that an export writes: which of each table, under which keys, and
//! whether the table loses the others.
use vstd::prelude::*;

use crate::codec::{DurableEncode, DurableEncoder, MAX_DURABLE_COLLECTION_LEN, encode_row};
use crate::error::StorageError;
use crate::export_cursor::DurableExportCursor;
use crate::idmap::{IdMap, is_walk};
use crate::metadata::{KeyspaceCatalogShard, LiveAppendStream, MetadataInner};
use crate::metadata_records::{
    DeviceHead, DurableDeviceManifest, DurableDeviceShardHead, DurableKeyspaceManifest,
    DurableKeyspaceShardHead, KeyspaceCommit, KeyspaceHead, ShardCommit,
};
use crate::persist_rows::{
    DurableTimelineRow, device_shard_row_key, device_shard_rows, keyspace_shard_row_key,
    keyspace_shard_rows, keyspace_shard_rows_of, prunes_history, shard_key, shard_row,
};
use crate::text::{decimal, push_decimal};

verus! {

/// What an export does to one table.
pub struct TableRows {
    /// Keys and payloads of the rows to write.
    pub puts: Vec<(String, Vec<u8>)>,
    /// The keys of the rows that stay, where the table loses the others.
    pub kept: Option<Vec<String>>,
}

/// A key and a payload as a text and bytes.
pub open spec fn row_view(row: (String, Vec<u8>)) -> (Seq<char>, Seq<u8>) {
    (row.0@, row.1@)
}

pub open spec fn row_views(rows: Seq<(String, Vec<u8>)>) -> Seq<(Seq<char>, Seq<u8>)> {
    rows.map_values(|row: (String, Vec<u8>)| row_view(row))
}

pub open spec fn key_views(keys: Seq<String>) -> Seq<Seq<char>> {
    keys.map_values(|key: String| key@)
}

/// The rows of a map from a number on.
pub open spec fn map_puts<T: DurableEncode>(
    keys: Seq<u128>,
    rows: Map<u128, T>,
    since: u128,
) -> Seq<(Seq<char>, Seq<u8>)>
    decreases keys.len(),
{
    if keys.len() == 0 {
        Seq::empty()
    } else {
        let before = map_puts(keys.drop_last(), rows, since);
        if keys.last() >= since {
            before.push((decimal(keys.last() as nat), rows[keys.last()].wire()))
        } else {
            before
        }
    }
}

pub open spec fn number_keys(keys: Seq<u128>) -> Seq<Seq<char>> {
    keys.map_values(|key: u128| decimal(key as nat))
}

/// The rows of a timeline from a commit on.
pub open spec fn timeline_puts<T: DurableEncode + DurableTimelineRow>(rows: Seq<T>, since: u64) -> Seq<
    (Seq<char>, Seq<u8>),
>
    decreases rows.len(),
{
    if rows.len() == 0 {
        Seq::empty()
    } else {
        let before = timeline_puts(rows.drop_last(), since);
        if rows.last().seq_of() >= since {
            before.push((rows.last().key_of(), rows.last().wire()))
        } else {
            before
        }
    }
}

impl TableRows {
    /// Whether the rows of a map from a number on are written, and all others
    /// than the map's are dropped if `prune` says so.
    pub open spec fn is_map<T: DurableEncode>(
        &self,
        rows: &IdMap<T>,
        since: u128,
        prune: bool,
    ) -> bool {
        &&& is_walk(rows.keys(), rows@)
        &&& row_views(self.puts@) == map_puts(rows.keys(), rows@, since)
        &&& self.kept is Some <==> prune
        &&& self.kept matches Some(kept) ==> key_views(kept@) == number_keys(rows.keys())
    }

    /// The same of a timeline.
    pub open spec fn is_timeline<T: DurableEncode + DurableTimelineRow>(
        &self,
        rows: Seq<T>,
        since: u64,
        prune: bool,
    ) -> bool {
        &&& row_views(self.puts@) == timeline_puts(rows, since)
        &&& self.kept is Some <==> prune
        &&& self.kept matches Some(kept) ==> key_views(kept@) == rows.map_values(
            |row: T| row.key_of(),
        )
    }
}

/// The entries of a map, each key before its value.
pub open spec fn entries_wire<T: DurableEncode>(keys: Seq<u128>, map: Map<u128, T>) -> Seq<u8>
    decreases keys.len(),
{
    if keys.len() == 0 {
        Seq::empty()
    } else {
        entries_wire(keys.drop_last(), map) + keys.last().wire() + map[keys.last()].wire()
    }
}

/// A map is written as the number of its entries and the entries by key.
impl<T: DurableEncode> DurableEncode for IdMap<T> {
    open spec fn wire(&self) -> Seq<u8> {
        (self.keys().len() as u64).wire() + entries_wire(self.keys(), self@)
    }

    open spec fn durable(&self) -> bool {
        &&& self.keys().len() <= MAX_DURABLE_COLLECTION_LEN
        &&& forall|id: u128| #[trigger] self@.contains_key(id) ==> self@[id].durable()
    }

    fn encode(&self, out: &mut DurableEncoder) -> (result: Result<(), StorageError>) {
        let count: usize = self.len();
        let ghost keys = self.keys();
        (count as u64).encode(out)?;
        let ghost start = out@;
        let mut next: usize = 0;
        proof {
            assert(keys.take(0) =~= Seq::empty());
            assert(out@ =~= start + entries_wire(keys.take(0), self@));
        }
        while next < count
            invariant
                next <= count,
                count == keys.len(),
                keys == self.keys(),
                out@ == start + entries_wire(keys.take(next as int), self@),
            decreases count - next,
        {
            let (key, value) = self.entry_at(next);
            key.encode(out)?;
            value.encode(out)?;
            proof {
                assert(keys.take(next + 1).drop_last() =~= keys.take(next as int));
                assert(out@ =~= start + entries_wire(keys.take(next + 1), self@));
            }
            next = next + 1;
        }
        proof {
            assert(keys.take(next as int) =~= keys);
            assert(out@ =~= old(out)@ + self.wire());
        }
        Ok(())
    }
}

impl DurableEncode for KeyspaceCatalogShard {
    open spec fn wire(&self) -> Seq<u8> {
        self.shard_id.wire() + self.files.wire()
    }

    open spec fn durable(&self) -> bool {
        self.files.durable()
    }

    fn encode(&self, out: &mut DurableEncoder) -> (result: Result<(), StorageError>) {
        self.shard_id.encode(out)?;
        let result = self.files.encode(out);
        assert(out@ =~= old(out)@ + self.wire());
        result
    }
}

/// Of an append stream only its state is written down.
impl DurableEncode for LiveAppendStream {
    open spec fn wire(&self) -> Seq<u8> {
        self.state.wire()
    }

    open spec fn durable(&self) -> bool {
        self.state.durable()
    }

    fn encode(&self, out: &mut DurableEncoder) -> (result: Result<(), StorageError>) {
        self.state.encode(out)
    }
}

fn number_text(value: u128) -> (text: String)
    ensures
        text@ == decimal(value as nat),
{
    let mut text = String::new();
    push_decimal(&mut text, value);
    assert(text@ =~= decimal(value as nat));
    text
}

fn encoded<T: DurableEncode>(value: &T) -> (bytes: Vec<u8>)
    ensures
        bytes@ == value.wire(),
{
    match encode_row(value) {
        Ok(bytes) => bytes,
        Err(_) => {
            assert(false);
            Vec::new()
        },
    }
}

/// The rows of a map from a number on.
pub fn sync_u128_payload_map_since<T: DurableEncode>(
    rows: &IdMap<T>,
    since: u128,
    prune: bool,
) -> (table: TableRows)
    ensures
        table.is_map(rows, since, prune),
{
    let count: usize = rows.len();
    let ghost keys = rows.keys();
    let mut puts: Vec<(String, Vec<u8>)> = Vec::new();
    let mut kept: Vec<String> = Vec::new();
    let mut next: usize = 0;
    proof {
        assert(keys.take(0) =~= Seq::empty());
        assert(row_views(puts@) =~= map_puts(keys.take(0), rows@, since));
        assert(key_views(kept@) =~= number_keys(keys.take(0)));
    }
    while next < count
        invariant
            next <= count,
            count == keys.len(),
            keys == rows.keys(),
            row_views(puts@) == map_puts(keys.take(next as int), rows@, since),
            key_views(kept@) == number_keys(keys.take(next as int)),
        decreases count - next,
    {
        let (key, row) = rows.entry_at(next);
        let ghost puts_before = puts@;
        let ghost kept_before = kept@;
        proof {
            assert(keys.take(next + 1).drop_last() =~= keys.take(next as int));
            assert(keys.take(next + 1).last() == key);
        }
        if key >= since {
            puts.push((number_text(key), encoded(row)));
            assert(row_views(puts@) =~= row_views(puts_before).push(row_view(puts@.last())));
        }
        kept.push(number_text(key));
        proof {
            assert(key_views(kept@) =~= key_views(kept_before).push(kept@.last()@));
            assert(number_keys(keys.take(next + 1)) =~= number_keys(keys.take(next as int)).push(
                decimal(key as nat),
            ));
        }
        next = next + 1;
    }
    assert(keys.take(next as int) =~= keys);
    TableRows {
        puts,
        kept: if prune {
            Some(kept)
        } else {
            None
        },
    }
}

/// The rows of a timeline from a commit on.
pub fn sync_timeline_table_since<T: DurableEncode + DurableTimelineRow>(
    rows: &Vec<T>,
    since: u64,
    prune: bool,
) -> (table: TableRows)
    ensures
        table.is_timeline(rows@, since, prune),
{
    let mut puts: Vec<(String, Vec<u8>)> = Vec::new();
    let mut kept: Vec<String> = Vec::new();
    let mut next: usize = 0;
    let ghost key_of = |row: T| row.key_of();
    proof {
        assert(rows@.take(0) =~= Seq::empty());
        assert(row_views(puts@) =~= timeline_puts(rows@.take(0), since));
        assert(key_views(kept@) =~= rows@.take(0).map_values(key_of));
    }
    while next < rows.len()
        invariant
            next <= rows@.len(),
            key_of == (|row: T| row.key_of()),
            row_views(puts@) == timeline_puts(rows@.take(next as int), since),
            key_views(kept@) == rows@.take(next as int).map_values(key_of),
        decreases rows@.len() - next,
    {
        let row = &rows[next];
        let ghost puts_before = puts@;
        let ghost kept_before = kept@;
        proof {
            assert(rows@.take(next + 1).drop_last() =~= rows@.take(next as int));
            assert(rows@.take(next + 1).last() == *row);
        }
        if row.commit().0 >= since {
            puts.push((row.row_key(), encoded(row)));
            assert(row_views(puts@) =~= row_views(puts_before).push(row_view(puts@.last())));
        }
        kept.push(row.row_key());
        proof {
            assert(key_views(kept@) =~= key_views(kept_before).push(kept@.last()@));
            assert(rows@.take(next + 1).map_values(key_of) =~= rows@.take(
                next as int,
            ).map_values(key_of).push(row.key_of()));
        }
        next = next + 1;
    }
    assert(rows@.take(next as int) =~= rows@);
    TableRows {
        puts,
        kept: if prune {
            Some(kept)
        } else {
            None
        },
    }
}

/// A row that the durable copy lacks is written: every row of a map with a
/// number that the last export had not used up is among those to write.
pub proof fn law_new_rows_are_written<T: DurableEncode>(
    table: TableRows,
    rows: IdMap<T>,
    since: u128,
    prune: bool,
    id: u128,
)
    requires
        table.is_map(&rows, since, prune),
        rows@.contains_key(id),
        id >= since,
    ensures
        row_views(table.puts@).contains((decimal(id as nat), rows@[id].wire())),
{
    let i = rows.keys().index_of(id);
    assert(rows.keys().contains(id));
    lemma_put_of(rows.keys(), rows@, since, i);
}

proof fn lemma_put_of<T: DurableEncode>(
    keys: Seq<u128>,
    rows: Map<u128, T>,
    since: u128,
    i: int,
)
    requires
        0 <= i < keys.len(),
        keys[i] >= since,
    ensures
        map_puts(keys, rows, since).contains((decimal(keys[i] as nat), rows[keys[i]].wire())),
    decreases keys.len(),
{
    let row = (decimal(keys[i] as nat), rows[keys[i]].wire());
    let before = map_puts(keys.drop_last(), rows, since);
    let all = map_puts(keys, rows, since);
    if i == keys.len() - 1 {
        assert(all.last() == row);
        assert(all[all.len() - 1] == row);
    } else {
        assert(keys.drop_last()[i] == keys[i]);
        lemma_put_of(keys.drop_last(), rows, since, i);
        let j = before.index_of(row);
        assert(all[j] == row);
    }
}

/// The rows of the shards of every device of a map, and one row for each
/// device.
pub struct HeadRows {
    pub manifests: Vec<(String, DurableDeviceManifest)>,
    pub shards: Vec<(String, DurableDeviceShardHead)>,
}

/// Whether a list holds the row of each shard of each device, in the order of
/// the devices and of their shards.
pub open spec fn shard_rows_of(
    keys: Seq<u128>,
    heads: Map<u128, DeviceHead>,
    commits: Seq<ShardCommit>,
) -> Seq<DurableDeviceShardHead>
    decreases keys.len(),
{
    if keys.len() == 0 {
        Seq::empty()
    } else {
        shard_rows_of(keys.drop_last(), heads, commits) + Seq::new(
            heads[keys.last()].shard_roots@.len(),
            |i: int| shard_row(heads[keys.last()], commits, i),
        )
    }
}

pub open spec fn shard_values(rows: Seq<(String, DurableDeviceShardHead)>) -> Seq<
    DurableDeviceShardHead,
> {
    rows.map_values(|row: (String, DurableDeviceShardHead)| row.1)
}

impl HeadRows {
    pub open spec fn is_of(&self, heads: &IdMap<DeviceHead>, commits: Seq<ShardCommit>) -> bool {
        &&& is_walk(heads.keys(), heads@)
        &&& self.manifests@.len() == heads.keys().len()
        &&& forall|i: int|
            0 <= i < self.manifests@.len() ==> (#[trigger] self.manifests@[i]).0@ == decimal(
                heads.keys()[i] as nat,
            ) && self.manifests@[i].1 == (DurableDeviceManifest {
                device_id: heads@[heads.keys()[i]].device_id,
                shard_count: heads@[heads.keys()[i]].shard_roots@.len() as u64,
            })
        &&& shard_values(self.shards@) == shard_rows_of(heads.keys(), heads@, commits)
        &&& forall|i: int|
            0 <= i < self.shards@.len() ==> (#[trigger] self.shards@[i]).0@ == shard_key(
                self.shards@[i].1.device_id.0,
                self.shards@[i].1.shard_id.0,
            )
    }
}

/// Whether the shards of every device can be numbered.
pub open spec fn shards_counted(heads: Map<u128, DeviceHead>) -> bool {
    forall|id: u128| #[trigger]
        heads.contains_key(id) ==> heads[id].shard_roots@.len() <= u32::MAX + 1
}

/// The rows of device heads.
pub fn sync_device_head_tables(heads: &IdMap<DeviceHead>, commits: &Vec<ShardCommit>) -> (result:
    Result<HeadRows, StorageError>)
    ensures
        result matches Ok(rows) ==> rows.is_of(heads, commits@),
        result is Ok <==> shards_counted(heads@),
        result matches Err(error) ==> error is InvalidArgument,
{
    let count: usize = heads.len();
    let ghost keys = heads.keys();
    let mut manifests: Vec<(String, DurableDeviceManifest)> = Vec::new();
    let mut shards: Vec<(String, DurableDeviceShardHead)> = Vec::new();
    let mut next: usize = 0;
    proof {
        assert(keys.take(0) =~= Seq::empty());
        assert(shard_values(shards@) =~= shard_rows_of(keys.take(0), heads@, commits@));
    }
    while next < count
        invariant
            next <= count,
            count == keys.len(),
            keys == heads.keys(),
            is_walk(keys, heads@),
            manifests@.len() == next,
            forall|i: int|
                0 <= i < next ==> (#[trigger] manifests@[i]).0@ == decimal(keys[i] as nat)
                    && manifests@[i].1 == (DurableDeviceManifest {
                    device_id: heads@[keys[i]].device_id,
                    shard_count: heads@[keys[i]].shard_roots@.len() as u64,
                }),
            shard_values(shards@) == shard_rows_of(keys.take(next as int), heads@, commits@),
            forall|i: int|
                0 <= i < shards@.len() ==> (#[trigger] shards@[i]).0@ == shard_key(
                    shards@[i].1.device_id.0,
                    shards@[i].1.shard_id.0,
                ),
            forall|i: int|
                0 <= i < next ==> heads@[#[trigger] keys[i]].shard_roots@.len() <= u32::MAX + 1,
        decreases count - next,
    {
        let (id, head) = heads.entry_at(next);
        manifests.push(
            (
                number_text(id),
                DurableDeviceManifest {
                    device_id: head.device_id,
                    shard_count: head.shard_roots.len() as u64,
                },
            ),
        );
        let rows = match device_shard_rows(head, commits) {
            Ok(rows) => rows,
            Err(error) => {
                assert(heads@.contains_key(id));
                return Err(error);
            },
        };
        let ghost before = shards@;
        let mut at: usize = 0;
        assert(shard_values(shards@) =~= shard_values(before) + rows@.take(0));
        while at < rows.len()
            invariant
                at <= rows@.len(),
                shard_values(shards@) == shard_values(before) + rows@.take(at as int),
                forall|i: int|
                    0 <= i < shards@.len() ==> (#[trigger] shards@[i]).0@ == shard_key(
                        shards@[i].1.device_id.0,
                        shards@[i].1.shard_id.0,
                    ),
            decreases rows@.len() - at,
        {
            let row = rows[at];
            let ghost then = shards@;
            shards.push((device_shard_row_key(row.device_id, row.shard_id), row));
            proof {
                assert(shard_values(shards@) =~= shard_values(then).push(row));
                assert(rows@.take(at + 1) =~= rows@.take(at as int).push(row));
                assert(shard_values(before) + rows@.take(at + 1) =~= (shard_values(before)
                    + rows@.take(at as int)).push(row));
            }
            at = at + 1;
        }
        proof {
            assert(rows@.take(at as int) =~= Seq::new(
                head.shard_roots@.len(),
                |i: int| shard_row(*head, commits@, i),
            ));
            assert(keys.take(next + 1).drop_last() =~= keys.take(next as int));
            assert(keys.take(next + 1).last() == id);
        }
        next = next + 1;
    }
    proof {
        assert(keys.take(next as int) =~= keys);
        assert forall|id: u128| #[trigger] heads@.contains_key(
            id,
        ) implies heads@[id].shard_roots@.len() <= u32::MAX + 1 by {
            let i = keys.index_of(id);
            assert(keys.contains(id));
            assert(heads@[keys[i]].shard_roots@.len() <= u32::MAX + 1);
        }
    }
    Ok(HeadRows { manifests, shards })
}

/// The rows of the shards of every keyspace of a map, and one row for each
/// keyspace.
pub struct KeyspaceHeadRows {
    pub manifests: Vec<(String, DurableKeyspaceManifest)>,
    pub shards: Vec<(String, DurableKeyspaceShardHead)>,
}

/// Whether a list holds the row of each shard of each keyspace, in the order of
/// the keyspaces and of their shards.
pub open spec fn keyspace_rows_of(
    keys: Seq<u128>,
    heads: Map<u128, KeyspaceHead>,
    commits: Seq<KeyspaceCommit>,
    prune_missing: bool,
) -> Seq<DurableKeyspaceShardHead>
    decreases keys.len(),
{
    if keys.len() == 0 {
        Seq::empty()
    } else {
        keyspace_rows_of(keys.drop_last(), heads, commits, prune_missing) + keyspace_shard_rows_of(
            heads[keys.last()],
            commits,
            prune_missing,
            heads[keys.last()].shard_roots@.len(),
        )
    }
}

pub open spec fn keyspace_shard_values(rows: Seq<(String, DurableKeyspaceShardHead)>) -> Seq<
    DurableKeyspaceShardHead,
> {
    rows.map_values(|row: (String, DurableKeyspaceShardHead)| row.1)
}

impl KeyspaceHeadRows {
    pub open spec fn is_of(
        &self,
        heads: &IdMap<KeyspaceHead>,
        commits: Seq<KeyspaceCommit>,
        prune_missing: bool,
    ) -> bool {
        &&& is_walk(heads.keys(), heads@)
        &&& self.manifests@.len() == heads.keys().len()
        &&& forall|i: int|
            0 <= i < self.manifests@.len() ==> (#[trigger] self.manifests@[i]).0@ == decimal(
                heads.keys()[i] as nat,
            ) && self.manifests@[i].1 == (DurableKeyspaceManifest {
                keyspace_id: heads@[heads.keys()[i]].keyspace_id,
                shard_count: heads@[heads.keys()[i]].shard_roots@.len() as u64,
                file_count: heads@[heads.keys()[i]].file_count as u64,
            })
        &&& keyspace_shard_values(self.shards@) == keyspace_rows_of(
            heads.keys(),
            heads@,
            commits,
            prune_missing,
        )
        &&& forall|i: int|
            0 <= i < self.shards@.len() ==> (#[trigger] self.shards@[i]).0@ == shard_key(
                self.shards@[i].1.keyspace_id.0,
                self.shards@[i].1.shard_index,
            )
    }
}

/// Whether the shards of every keyspace can be numbered.
pub open spec fn keyspace_shards_counted(heads: Map<u128, KeyspaceHead>) -> bool {
    forall|id: u128| #[trigger]
        heads.contains_key(id) ==> heads[id].shard_roots@.len() <= u32::MAX + 1
}

/// The rows of keyspace heads.
pub fn sync_keyspace_head_tables(
    heads: &IdMap<KeyspaceHead>,
    commits: &Vec<KeyspaceCommit>,
    prune_missing: bool,
) -> (result: Result<KeyspaceHeadRows, StorageError>)
    ensures
        result matches Ok(rows) ==> rows.is_of(heads, commits@, prune_missing),
        result is Ok <==> keyspace_shards_counted(heads@),
        result matches Err(error) ==> error is InvalidArgument,
{
    let count: usize = heads.len();
    let ghost keys = heads.keys();
    let mut manifests: Vec<(String, DurableKeyspaceManifest)> = Vec::new();
    let mut shards: Vec<(String, DurableKeyspaceShardHead)> = Vec::new();
    let mut next: usize = 0;
    proof {
        assert(keys.take(0) =~= Seq::empty());
        assert(keyspace_shard_values(shards@) =~= keyspace_rows_of(keys.take(0), heads@, commits@, prune_missing));
    }
    while next < count
        invariant
            next <= count,
            count == keys.len(),
            keys == heads.keys(),
            is_walk(keys, heads@),
            manifests@.len() == next,
            forall|i: int|
                0 <= i < next ==> (#[trigger] manifests@[i]).0@ == decimal(keys[i] as nat)
                    && manifests@[i].1 == (DurableKeyspaceManifest {
                    keyspace_id: heads@[keys[i]].keyspace_id,
                    shard_count: heads@[keys[i]].shard_roots@.len() as u64,
                    file_count: heads@[keys[i]].file_count as u64,
                }),
            keyspace_shard_values(shards@) == keyspace_rows_of(keys.take(next as int), heads@, commits@, prune_missing),
            forall|i: int|
                0 <= i < shards@.len() ==> (#[trigger] shards@[i]).0@ == shard_key(
                    shards@[i].1.keyspace_id.0,
                    shards@[i].1.shard_index,
                ),
            forall|i: int|
                0 <= i < next ==> heads@[#[trigger] keys[i]].shard_roots@.len() <= u32::MAX + 1,
        decreases count - next,
    {
        let (id, head) = heads.entry_at(next);
        manifests.push(
            (
                number_text(id),
                DurableKeyspaceManifest {
                    keyspace_id: head.keyspace_id,
                    shard_count: head.shard_roots.len() as u64,
                    file_count: head.file_count as u64,
                },
            ),
        );
        let rows = match keyspace_shard_rows(head, commits, prune_missing) {
            Ok(rows) => rows,
            Err(error) => {
                assert(heads@.contains_key(id));
                return Err(error);
            },
        };
        let ghost before = shards@;
        let mut at: usize = 0;
        assert(keyspace_shard_values(shards@) =~= keyspace_shard_values(before) + rows@.take(0));
        while at < rows.len()
            invariant
                at <= rows@.len(),
                keyspace_shard_values(shards@) == keyspace_shard_values(before) + rows@.take(at as int),
                forall|i: int|
                    0 <= i < shards@.len() ==> (#[trigger] shards@[i]).0@ == shard_key(
                        shards@[i].1.keyspace_id.0,
                        shards@[i].1.shard_index,
                    ),
            decreases rows@.len() - at,
        {
            let row = rows[at];
            let ghost then = shards@;
            shards.push((keyspace_shard_row_key(row.keyspace_id, row.shard_index), row));
            proof {
                assert(keyspace_shard_values(shards@) =~= keyspace_shard_values(then).push(row));
                assert(rows@.take(at + 1) =~= rows@.take(at as int).push(row));
                assert(keyspace_shard_values(before) + rows@.take(at + 1) =~= (keyspace_shard_values(before)
                    + rows@.take(at as int)).push(row));
            }
            at = at + 1;
        }
        proof {
            assert(rows@.take(at as int) =~= rows@);
            assert(keys.take(next + 1).drop_last() =~= keys.take(next as int));
            assert(keys.take(next + 1).last() == id);
        }
        next = next + 1;
    }
    proof {
        assert(keys.take(next as int) =~= keys);
        assert forall|id: u128| #[trigger] heads@.contains_key(
            id,
        ) implies heads@[id].shard_roots@.len() <= u32::MAX + 1 by {
            let i = keys.index_of(id);
            assert(keys.contains(id));
            assert(heads@[keys[i]].shard_roots@.len() <= u32::MAX + 1);
        }
    }
    Ok(KeyspaceHeadRows { manifests, shards })
}

/// The rows of every table that an export of a whole state writes.
pub struct NativeStateRows {
    pub device_specs: TableRows,
    pub device_heads: HeadRows,
    pub deleted_device_heads: HeadRows,
    pub keyspace_heads: KeyspaceHeadRows,
    pub keyspace_roots: TableRows,
    pub keyspace_catalog_shards: TableRows,
    pub append_streams: TableRows,
    pub metadata_nodes: TableRows,
    pub commit_groups: TableRows,
    pub shard_commits: TableRows,
    pub keyspace_commits: TableRows,
    pub file_commits: TableRows,
    pub fork_records: TableRows,
    pub delete_records: TableRows,
    pub checkpoints: TableRows,
    pub metadata_gc_marks: TableRows,
    pub segment_gc_marks: TableRows,
}

/// Whether an export drops history that the durable copy holds.
pub open spec fn drops_history(previous: Option<&DurableExportCursor>, next_gc_epoch: u64) -> bool {
    match previous {
        Some(cursor) => cursor.next_gc_epoch != next_gc_epoch,
        None => true,
    }
}

impl NativeStateRows {
    /// Whether these are the rows that an export adds to an earlier one.
    pub open spec fn are(
        &self,
        metadata: &MetadataInner,
        previous: Option<&DurableExportCursor>,
    ) -> bool {
        let prune = drops_history(previous, metadata.next_gc_epoch);
        let from = match previous {
            Some(cursor) => *cursor,
            None => none_exported(),
        };
        let seq = from.next_commit_seq;
        &&& self.device_specs.is_map(&metadata.device_specs, 0, true)
        &&& self.device_heads.is_of(&metadata.device_heads, metadata.shard_commits@)
        &&& self.deleted_device_heads.is_of(
            &metadata.deleted_device_heads,
            metadata.shard_commits@,
        )
        &&& self.keyspace_heads.is_of(
            &metadata.keyspace_heads,
            metadata.keyspace_commits@,
            true,
        )
        &&& self.keyspace_roots.is_map(
            &metadata.keyspace_roots,
            from.next_keyspace_root_id,
            prune,
        )
        &&& self.keyspace_catalog_shards.is_map(
            &metadata.keyspace_catalog_shards,
            from.next_keyspace_catalog_shard_id,
            prune,
        )
        &&& self.append_streams.is_map(&metadata.append_streams, 0, true)
        &&& self.metadata_nodes.is_map(
            &metadata.trees.nodes,
            from.next_metadata_node_id,
            prune,
        )
        &&& self.commit_groups.is_map(&metadata.commit_groups, from.next_commit_group_id, prune)
        &&& self.shard_commits.is_timeline(metadata.shard_commits@, seq, prune)
        &&& self.keyspace_commits.is_timeline(metadata.keyspace_commits@, seq, prune)
        &&& self.file_commits.is_timeline(metadata.file_commits@, seq, prune)
        &&& self.fork_records.is_map(&metadata.fork_records, seq as u128, prune)
        &&& self.delete_records.is_map(&metadata.delete_records, seq as u128, prune)
        &&& self.checkpoints.is_map(&metadata.checkpoints, from.next_checkpoint_id, prune)
        &&& self.metadata_gc_marks.is_map(&metadata.metadata_last_mark_epoch, 0, true)
        &&& self.segment_gc_marks.is_map(&metadata.segment_last_mark_epoch, 0, true)
    }
}

/// The cursor of a durable copy that knows nothing.
pub open spec fn none_exported() -> DurableExportCursor {
    DurableExportCursor {
        config: crate::config::default_config(),
        next_device_id: 0,
        next_keyspace_id: 0,
        next_file_id: 0,
        next_metadata_node_id: 0,
        next_keyspace_root_id: 0,
        next_keyspace_catalog_shard_id: 0,
        next_commit_group_id: 0,
        next_commit_seq: 0,
        next_checkpoint_id: 0,
        next_gc_epoch: 0,
        next_write_intent: 0,
        next_extent_id: 0,
        next_segment_id: 0,
        next_placement_index: 0,
    }
}

/// The rows that an export of a state adds to an earlier export.
pub fn persist_row_native_state(
    metadata: &MetadataInner,
    previous: Option<&DurableExportCursor>,
) -> (result: Result<NativeStateRows, StorageError>)
    ensures
        result matches Ok(rows) ==> rows.are(metadata, previous),
        result is Ok <==> shards_counted(metadata.device_heads@) && shards_counted(
            metadata.deleted_device_heads@,
        ) && keyspace_shards_counted(metadata.keyspace_heads@),
        result matches Err(error) ==> error is InvalidArgument,
{
    let prune = prunes_history(previous, metadata.next_gc_epoch);
    let mut root_floor: u128 = 0;
    let mut shard_floor: u128 = 0;
    let mut node_floor: u128 = 0;
    let mut group_floor: u128 = 0;
    let mut checkpoint_floor: u128 = 0;
    let mut seq: u64 = 0;
    if let Some(cursor) = previous {
        root_floor = cursor.next_keyspace_root_id;
        shard_floor = cursor.next_keyspace_catalog_shard_id;
        node_floor = cursor.next_metadata_node_id;
        group_floor = cursor.next_commit_group_id;
        checkpoint_floor = cursor.next_checkpoint_id;
        seq = cursor.next_commit_seq;
    }
    let device_heads = match sync_device_head_tables(
        &metadata.device_heads,
        &metadata.shard_commits,
    ) {
        Ok(rows) => rows,
        Err(error) => return Err(error),
    };
    let deleted_device_heads = match sync_device_head_tables(
        &metadata.deleted_device_heads,
        &metadata.shard_commits,
    ) {
        Ok(rows) => rows,
        Err(error) => return Err(error),
    };
    let keyspace_heads = match sync_keyspace_head_tables(
        &metadata.keyspace_heads,
        &metadata.keyspace_commits,
        true,
    ) {
        Ok(rows) => rows,
        Err(error) => return Err(error),
    };
    Ok(
        NativeStateRows {
            device_specs: sync_u128_payload_map_since(&metadata.device_specs, 0, true),
            device_heads,
            deleted_device_heads,
            keyspace_heads,
            keyspace_roots: sync_u128_payload_map_since(
                &metadata.keyspace_roots,
                root_floor,
                prune,
            ),
            keyspace_catalog_shards: sync_u128_payload_map_since(
                &metadata.keyspace_catalog_shards,
                shard_floor,
                prune,
            ),
            append_streams: sync_u128_payload_map_since(&metadata.append_streams, 0, true),
            metadata_nodes: sync_u128_payload_map_since(&metadata.trees.nodes, node_floor, prune),
            commit_groups: sync_u128_payload_map_since(
                &metadata.commit_groups,
                group_floor,
                prune,
            ),
            shard_commits: sync_timeline_table_since(&metadata.shard_commits, seq, prune),
            keyspace_commits: sync_timeline_table_since(&metadata.keyspace_commits, seq, prune),
            file_commits: sync_timeline_table_since(&metadata.file_commits, seq, prune),
            fork_records: sync_u128_payload_map_since(
                &metadata.fork_records,
                seq as u128,
                prune,
            ),
            delete_records: sync_u128_payload_map_since(
                &metadata.delete_records,
                seq as u128,
                prune,
            ),
            checkpoints: sync_u128_payload_map_since(
                &metadata.checkpoints,
                checkpoint_floor,
                prune,
            ),
            metadata_gc_marks: sync_u128_payload_map_since(
                &metadata.metadata_last_mark_epoch,
                0,
                true,
            ),
            segment_gc_marks: sync_u128_payload_map_since(
                &metadata.segment_last_mark_epoch,
                0,
                true,
            ),
        },
    )
}

} // verus!
