//! The rows of the metadata: which commit each is of, and what each names.
use vstd::prelude::*;

use crate::id::{CommitSeq, KeyspaceId, MetadataNodeId};
use crate::idmap::{is_walk, IdMap};
use crate::metadata::{KeyspaceCatalogShard, LiveAppendStream};
use crate::metadata_records::{
    Checkpoint, CheckpointRoots, CommitGroup, DeleteRecord, DeviceHead, FileCommit, ForkRecord,
    KeyspaceCommit, KeyspaceHead, KeyspaceRoot, MappingOwner, RootUpdate, ShardCommit,
};

verus! {

/// A row that one commit wrote.
pub trait OfCommit {
    spec fn seq_of(&self) -> u64;

    fn commit(&self) -> (seq: CommitSeq)
        ensures
            seq.0 == self.seq_of(),
    ;
}

impl OfCommit for ShardCommit {
    open spec fn seq_of(&self) -> u64 {
        self.commit_seq.0
    }

    fn commit(&self) -> (seq: CommitSeq) {
        self.commit_seq
    }
}

impl OfCommit for KeyspaceCommit {
    open spec fn seq_of(&self) -> u64 {
        self.commit_seq.0
    }

    fn commit(&self) -> (seq: CommitSeq) {
        self.commit_seq
    }
}

impl OfCommit for FileCommit {
    open spec fn seq_of(&self) -> u64 {
        self.commit_seq.0
    }

    fn commit(&self) -> (seq: CommitSeq) {
        self.commit_seq
    }
}

impl OfCommit for CommitGroup {
    open spec fn seq_of(&self) -> u64 {
        self.commit_seq.0
    }

    fn commit(&self) -> (seq: CommitSeq) {
        self.commit_seq
    }
}

impl OfCommit for ForkRecord {
    open spec fn seq_of(&self) -> u64 {
        self.commit_seq.0
    }

    fn commit(&self) -> (seq: CommitSeq) {
        self.commit_seq
    }
}

impl OfCommit for DeleteRecord {
    open spec fn seq_of(&self) -> u64 {
        self.commit_seq.0
    }

    fn commit(&self) -> (seq: CommitSeq) {
        self.commit_seq
    }
}

impl OfCommit for Checkpoint {
    open spec fn seq_of(&self) -> u64 {
        self.commit_seq.0
    }

    fn commit(&self) -> (seq: CommitSeq) {
        self.commit_seq
    }
}

impl OfCommit for DeviceHead {
    open spec fn seq_of(&self) -> u64 {
        self.latest_commit.0
    }

    fn commit(&self) -> (seq: CommitSeq) {
        self.latest_commit
    }
}

/// The rows of the commits from one to another, in their order.
pub open spec fn between<T: OfCommit>(rows: Seq<T>, from: u64, to: u64) -> Seq<T>
    decreases rows.len(),
{
    if rows.len() == 0 {
        rows
    } else {
        let before = between(rows.drop_last(), from, to);
        if from <= rows.last().seq_of() <= to {
            before.push(rows.last())
        } else {
            before
        }
    }
}

/// The rows of the commits from one to another.
pub fn rows_between<T: OfCommit + Copy>(rows: &Vec<T>, from: u64, to: u64) -> (kept: Vec<T>)
    ensures
        kept@ == between(rows@, from, to),
{
    let mut kept: Vec<T> = Vec::new();
    let mut next: usize = 0;
    assert(rows@.take(0) =~= Seq::<T>::empty());
    while next < rows.len()
        invariant
            next <= rows@.len(),
            kept@ == between(rows@.take(next as int), from, to),
        decreases rows@.len() - next,
    {
        let row = rows[next];
        proof {
            assert(rows@.take(next + 1).drop_last() =~= rows@.take(next as int));
        }
        let seq = row.commit().0;
        if from <= seq && seq <= to {
            kept.push(row);
        }
        next = next + 1;
    }
    assert(rows@.take(next as int) =~= rows@);
    kept
}

/// Whether some row in a list is of a commit from one to another.
pub open spec fn any_between<T: OfCommit>(rows: Seq<T>, from: u64, to: u64) -> bool {
    exists|i: int| 0 <= i < rows.len() && from <= (#[trigger] rows[i]).seq_of() <= to
}

/// Whether some row in a map is of a commit from one to another.
pub open spec fn any_row_between<T: OfCommit>(rows: Map<u128, T>, from: u64, to: u64) -> bool {
    exists|id: u128| #[trigger]
        rows.contains_key(id) && from <= rows[id].seq_of() <= to
}

pub fn has_between<T: OfCommit>(rows: &Vec<T>, from: u64, to: u64) -> (found: bool)
    ensures
        found == any_between(rows@, from, to),
{
    let mut next: usize = 0;
    while next < rows.len()
        invariant
            next <= rows@.len(),
            forall|i: int| 0 <= i < next ==> !(from <= (#[trigger] rows@[i]).seq_of() <= to),
        decreases rows@.len() - next,
    {
        let seq = rows[next].commit().0;
        if from <= seq && seq <= to {
            assert(from <= rows@[next as int].seq_of() <= to);
            return true;
        }
        next = next + 1;
    }
    false
}

pub fn has_row_between<T: OfCommit>(rows: &IdMap<T>, from: u64, to: u64) -> (found: bool)
    ensures
        found == any_row_between(rows@, from, to),
{
    let keys = keys_between(rows, from, to);
    let empty = keys.is_empty();
    proof {
        if empty {
            assert forall|id: u128| #[trigger] rows@.contains_key(id) implies !(from
                <= rows@[id].seq_of() <= to) by {
                assert(!keys@.contains_key(id));
            }
        } else if !any_row_between(rows@, from, to) {
            assert(keys@ =~= Map::<u128, ()>::empty());
        }
    }
    !empty
}

/// The keys of the rows of the commits from one to another.
pub fn keys_between<T: OfCommit>(rows: &IdMap<T>, from: u64, to: u64) -> (keys: IdMap<()>)
    ensures
        forall|id: u128| #[trigger]
            keys@.contains_key(id) <==> rows@.contains_key(id) && from <= rows@[id].seq_of() <= to,
{
    let mut found: IdMap<()> = IdMap::new();
    let count: usize = rows.len();
    let ghost keys = rows.keys();
    let mut next: usize = 0;
    while next < count
        invariant
            next <= count,
            count == keys.len(),
            keys == rows.keys(),
            is_walk(keys, rows@),
            forall|id: u128| #[trigger]
                found@.contains_key(id) <==> keys.take(next as int).contains(id) && from
                    <= rows@[id].seq_of() <= to,
        decreases count - next,
    {
        let (key, row) = rows.entry_at(next);
        let seq = row.commit().0;
        if from <= seq && seq <= to {
            found.insert(key, ());
        }
        proof {
            lemma_taken(keys, next as int);
        }
        next = next + 1;
    }
    proof {
        assert(keys.take(next as int) =~= keys);
        assert forall|id: u128| keys.contains(id) <==> rows@.contains_key(id) by {}
    }
    found
}

/// What one more element adds to those taken.
pub proof fn lemma_taken(keys: Seq<u128>, next: int)
    requires
        0 <= next < keys.len(),
    ensures
        forall|id: u128| #[trigger]
            keys.take(next + 1).contains(id) <==> keys.take(next).contains(id) || id == keys[next],
{
    let more = keys.take(next + 1);
    assert(more =~= keys.take(next).push(keys[next]));
    assert forall|id: u128| #[trigger]
        more.contains(id) <==> keys.take(next).contains(id) || id == keys[next] by {
        if keys.take(next).contains(id) {
            let at = keys.take(next).index_of(id);
            assert(more[at] == id);
        }
        if id == keys[next] {
            assert(more[next] == id);
        }
        if more.contains(id) {
            let at = more.index_of(id);
            if at < next {
                assert(keys.take(next)[at] == id);
            }
        }
    }
}

/// A kind of thing that a row can name.
#[derive(Clone, Copy, Debug, PartialEq, Eq, Structural)]
pub enum NameKind {
    /// The root of a metadata tree.
    Root,
    /// A device.
    Device,
    /// A catalog shard.
    Shard,
    /// A kept root of a keyspace.
    KeyspaceRoot,
    /// A catalog shard of one keyspace.
    ShardOf(KeyspaceId),
    /// A kept root of one keyspace.
    KeyspaceRootOf(KeyspaceId),
    /// A file of one keyspace.
    File(KeyspaceId),
    /// A keyspace.
    Keyspace,
    /// The root that a file commit wrote.
    NewRoot,
}

/// A row that names other things.
pub trait Names {
    spec fn names(&self, kind: NameKind, id: u128) -> bool;

    fn add_names(&self, kind: NameKind, out: &mut IdMap<()>)
        ensures
            forall|id: u128| #[trigger]
                final(out)@.contains_key(id) <==> old(out)@.contains_key(id) || self.names(kind, id),
    ;
}

/// Whether a list has a node.
pub open spec fn lists_node(list: Seq<MetadataNodeId>, id: u128) -> bool {
    exists|i: int| 0 <= i < list.len() && (#[trigger] list[i]).0 == id
}

fn add_listed(list: &Vec<MetadataNodeId>, out: &mut IdMap<()>)
    ensures
        forall|id: u128| #[trigger]
            final(out)@.contains_key(id) <==> old(out)@.contains_key(id) || lists_node(list@, id),
{
    let mut next: usize = 0;
    while next < list.len()
        invariant
            next <= list@.len(),
            forall|id: u128| #[trigger]
                out@.contains_key(id) <==> old(out)@.contains_key(id) || lists_node(
                    list@.take(next as int),
                    id,
                ),
        decreases list@.len() - next,
    {
        let ghost then = out@;
        out.insert(list[next].0, ());
        proof {
            let more = list@.take(next + 1);
            let less = list@.take(next as int);
            assert forall|id: u128| #[trigger]
                out@.contains_key(id) <==> old(out)@.contains_key(id) || lists_node(more, id) by {
                if lists_node(less, id) {
                    let i = choose|i: int| 0 <= i < less.len() && (#[trigger] less[i]).0 == id;
                    assert(more[i].0 == id);
                }
                if id == list@[next as int].0 {
                    assert(more[next as int].0 == id);
                }
                if lists_node(more, id) {
                    let i = choose|i: int| 0 <= i < more.len() && (#[trigger] more[i]).0 == id;
                    if i < next {
                        assert(less[i].0 == id);
                    }
                }
                assert(then.contains_key(id) <==> old(out)@.contains_key(id) || lists_node(
                    less,
                    id,
                ));
            }
        }
        next = next + 1;
    }
    assert(list@.take(next as int) =~= list@);
}

/// Whether some row in a map names a thing.
pub open spec fn map_names<T: Names>(rows: Map<u128, T>, kind: NameKind, id: u128) -> bool {
    exists|key: u128| #[trigger] rows.contains_key(key) && rows[key].names(kind, id)
}

/// Whether some row in a list names a thing.
pub open spec fn list_names<T: Names>(rows: Seq<T>, kind: NameKind, id: u128) -> bool {
    exists|i: int| 0 <= i < rows.len() && (#[trigger] rows[i]).names(kind, id)
}

/// Adds what the rows of a map name.
pub fn add_map_names<T: Names>(rows: &IdMap<T>, kind: NameKind, out: &mut IdMap<()>)
    ensures
        forall|id: u128| #[trigger]
            final(out)@.contains_key(id) <==> old(out)@.contains_key(id) || map_names(
                rows@,
                kind,
                id,
            ),
{
    let count: usize = rows.len();
    let ghost keys = rows.keys();
    let mut next: usize = 0;
    while next < count
        invariant
            next <= count,
            count == keys.len(),
            keys == rows.keys(),
            is_walk(keys, rows@),
            forall|id: u128| #[trigger]
                out@.contains_key(id) <==> old(out)@.contains_key(id) || exists|i: int|
                    0 <= i < next && rows@[#[trigger] keys[i]].names(kind, id),
        decreases count - next,
    {
        let ghost then = out@;
        let (key, row) = rows.entry_at(next);
        row.add_names(kind, out);
        proof {
            assert forall|id: u128| #[trigger]
                out@.contains_key(id) <==> old(out)@.contains_key(id) || exists|i: int|
                    0 <= i < next + 1 && rows@[#[trigger] keys[i]].names(kind, id) by {
                if then.contains_key(id) && !old(out)@.contains_key(id) {
                    let i = choose|i: int|
                        0 <= i < next && rows@[#[trigger] keys[i]].names(kind, id);
                    assert(rows@[keys[i]].names(kind, id));
                }
                if row.names(kind, id) {
                    assert(rows@[keys[next as int]].names(kind, id));
                }
            }
        }
        next = next + 1;
    }
    proof {
        assert forall|id: u128| #[trigger]
            out@.contains_key(id) <==> old(out)@.contains_key(id) || map_names(
                rows@,
                kind,
                id,
            ) by {
            if map_names(rows@, kind, id) {
                let key = choose|key: u128| #[trigger]
                    rows@.contains_key(key) && rows@[key].names(kind, id);
                assert(keys.contains(key));
                let i = keys.index_of(key);
                assert(rows@[keys[i]].names(kind, id));
            }
            if exists|i: int| 0 <= i < next && rows@[#[trigger] keys[i]].names(kind, id) {
                let i = choose|i: int| 0 <= i < next && rows@[#[trigger] keys[i]].names(kind, id);
                assert(rows@.contains_key(keys[i]));
            }
        }
    }
}

/// Adds what the rows of a list name.
pub fn add_list_names<T: Names>(rows: &Vec<T>, kind: NameKind, out: &mut IdMap<()>)
    ensures
        forall|id: u128| #[trigger]
            final(out)@.contains_key(id) <==> old(out)@.contains_key(id) || list_names(
                rows@,
                kind,
                id,
            ),
{
    let mut next: usize = 0;
    while next < rows.len()
        invariant
            next <= rows@.len(),
            forall|id: u128| #[trigger]
                out@.contains_key(id) <==> old(out)@.contains_key(id) || exists|i: int|
                    0 <= i < next && (#[trigger] rows@[i]).names(kind, id),
        decreases rows@.len() - next,
    {
        let ghost then = out@;
        rows[next].add_names(kind, out);
        proof {
            assert forall|id: u128| #[trigger]
                out@.contains_key(id) <==> old(out)@.contains_key(id) || exists|i: int|
                    0 <= i < next + 1 && (#[trigger] rows@[i]).names(kind, id) by {
                if then.contains_key(id) && !old(out)@.contains_key(id) {
                    let i = choose|i: int|
                        0 <= i < next && (#[trigger] rows@[i]).names(kind, id);
                    assert(rows@[i].names(kind, id));
                }
                if rows@[next as int].names(kind, id) {
                    assert(then.contains_key(id) || out@.contains_key(id));
                }
            }
        }
        next = next + 1;
    }
}

/// A row about one device or one keyspace.
pub trait OfOwner: OfCommit {
    spec fn about(&self, owner: MappingOwner) -> bool;

    fn is_about(&self, owner: MappingOwner) -> (about: bool)
        ensures
            about == self.about(owner),
    ;
}

impl OfOwner for ShardCommit {
    open spec fn about(&self, owner: MappingOwner) -> bool {
        owner == MappingOwner::BlockDevice(self.device_id)
    }

    fn is_about(&self, owner: MappingOwner) -> (about: bool) {
        match owner {
            MappingOwner::BlockDevice(device_id) => device_id.0 == self.device_id.0,
            MappingOwner::NativeKeyspace(_) => false,
        }
    }
}

impl OfOwner for ForkRecord {
    open spec fn about(&self, owner: MappingOwner) -> bool {
        owner == MappingOwner::BlockDevice(self.target)
    }

    fn is_about(&self, owner: MappingOwner) -> (about: bool) {
        match owner {
            MappingOwner::BlockDevice(device_id) => device_id.0 == self.target.0,
            MappingOwner::NativeKeyspace(_) => false,
        }
    }
}

impl OfOwner for DeleteRecord {
    open spec fn about(&self, owner: MappingOwner) -> bool {
        owner == MappingOwner::BlockDevice(self.device_id)
    }

    fn is_about(&self, owner: MappingOwner) -> (about: bool) {
        match owner {
            MappingOwner::BlockDevice(device_id) => device_id.0 == self.device_id.0,
            MappingOwner::NativeKeyspace(_) => false,
        }
    }
}

impl OfOwner for KeyspaceCommit {
    open spec fn about(&self, owner: MappingOwner) -> bool {
        owner == MappingOwner::NativeKeyspace(self.keyspace_id)
    }

    fn is_about(&self, owner: MappingOwner) -> (about: bool) {
        match owner {
            MappingOwner::BlockDevice(_) => false,
            MappingOwner::NativeKeyspace(keyspace_id) => keyspace_id.0 == self.keyspace_id.0,
        }
    }
}

impl OfOwner for Checkpoint {
    open spec fn about(&self, owner: MappingOwner) -> bool {
        owner == self.owner
    }

    fn is_about(&self, owner: MappingOwner) -> (about: bool) {
        match (owner, self.owner) {
            (MappingOwner::BlockDevice(a), MappingOwner::BlockDevice(b)) => a.0 == b.0,
            (MappingOwner::NativeKeyspace(a), MappingOwner::NativeKeyspace(b)) => a.0 == b.0,
            _ => false,
        }
    }
}

/// Whether a list has a row about an owner of a commit that is not too late.
pub open spec fn list_has_commit<T: OfOwner>(
    rows: Seq<T>,
    owner: MappingOwner,
    at: u64,
    seq: u64,
) -> bool {
    seq <= at && exists|i: int|
        0 <= i < rows.len() && (#[trigger] rows[i]).about(owner) && rows[i].seq_of() == seq
}

/// Whether a map has a row about an owner of a commit that is not too late.
pub open spec fn map_has_commit<T: OfOwner>(
    rows: Map<u128, T>,
    owner: MappingOwner,
    at: u64,
    seq: u64,
) -> bool {
    seq <= at && exists|key: u128| #[trigger]
        rows.contains_key(key) && rows[key].about(owner) && rows[key].seq_of() == seq
}

pub fn latest_in_list<T: OfOwner>(rows: &Vec<T>, owner: MappingOwner, at: u64) -> (latest: u64)
    ensures
        latest == 0 || list_has_commit(rows@, owner, at, latest),
        forall|seq: u64| #[trigger] list_has_commit(rows@, owner, at, seq) ==> seq <= latest,
{
    let mut latest: u64 = 0;
    let mut next: usize = 0;
    while next < rows.len()
        invariant
            next <= rows@.len(),
            latest == 0 || list_has_commit(rows@, owner, at, latest),
            forall|i: int|
                0 <= i < next && (#[trigger] rows@[i]).about(owner) && rows@[i].seq_of() <= at
                    ==> rows@[i].seq_of() <= latest,
        decreases rows@.len() - next,
    {
        let row = &rows[next];
        let seq = row.commit().0;
        if row.is_about(owner) && seq <= at && seq > latest {
            assert(rows@[next as int].about(owner));
            latest = seq;
        }
        next = next + 1;
    }
    latest
}

pub fn latest_in_map<T: OfOwner>(rows: &IdMap<T>, owner: MappingOwner, at: u64) -> (latest: u64)
    ensures
        latest == 0 || map_has_commit(rows@, owner, at, latest),
        forall|seq: u64| #[trigger] map_has_commit(rows@, owner, at, seq) ==> seq <= latest,
{
    let mut latest: u64 = 0;
    let count: usize = rows.len();
    let ghost keys = rows.keys();
    let mut next: usize = 0;
    while next < count
        invariant
            next <= count,
            count == keys.len(),
            keys == rows.keys(),
            is_walk(keys, rows@),
            latest == 0 || map_has_commit(rows@, owner, at, latest),
            forall|i: int|
                0 <= i < next && rows@[#[trigger] keys[i]].about(owner) && rows@[keys[i]].seq_of()
                    <= at ==> rows@[keys[i]].seq_of() <= latest,
        decreases count - next,
    {
        let (key, row) = rows.entry_at(next);
        let seq = row.commit().0;
        if row.is_about(owner) && seq <= at && seq > latest {
            assert(rows@.contains_key(key));
            latest = seq;
        }
        next = next + 1;
    }
    proof {
        assert forall|seq: u64| #[trigger] map_has_commit(rows@, owner, at, seq) implies seq
            <= latest by {
            let key = choose|key: u128| #[trigger]
                rows@.contains_key(key) && rows@[key].about(owner) && rows@[key].seq_of() == seq;
            assert(keys.contains(key));
            let i = keys.index_of(key);
            assert(rows@[keys[i]].about(owner));
        }
    }
    latest
}

/// Those of some keys that are not below a bound.
pub fn at_least(keys: &IdMap<()>, floor: u128) -> (kept: IdMap<()>)
    ensures
        forall|id: u128| #[trigger]
            kept@.contains_key(id) <==> keys@.contains_key(id) && id >= floor,
{
    let mut kept: IdMap<()> = IdMap::new();
    let count: usize = keys.len();
    let ghost walk = keys.keys();
    let mut next: usize = 0;
    while next < count
        invariant
            next <= count,
            count == walk.len(),
            walk == keys.keys(),
            is_walk(walk, keys@),
            forall|id: u128| #[trigger]
                kept@.contains_key(id) <==> walk.take(next as int).contains(id) && id >= floor,
        decreases count - next,
    {
        let (key, _) = keys.entry_at(next);
        if key >= floor {
            kept.insert(key, ());
        }
        proof {
            lemma_taken(walk, next as int);
        }
        next = next + 1;
    }
    proof {
        assert(walk.take(next as int) =~= walk);
        assert forall|id: u128| walk.contains(id) <==> keys@.contains_key(id) by {}
    }
    kept
}

/// All keys of a map.
pub fn all_keys<T>(rows: &IdMap<T>) -> (keys: IdMap<()>)
    ensures
        forall|id: u128| #[trigger] keys@.contains_key(id) <==> rows@.contains_key(id),
{
    let mut every: IdMap<()> = IdMap::new();
    let count: usize = rows.len();
    let ghost walk = rows.keys();
    let mut next: usize = 0;
    while next < count
        invariant
            next <= count,
            count == walk.len(),
            walk == rows.keys(),
            is_walk(walk, rows@),
            forall|id: u128| #[trigger]
                every@.contains_key(id) <==> walk.take(next as int).contains(id),
        decreases count - next,
    {
        let (id, _) = rows.entry_at(next);
        every.insert(id, ());
        proof {
            lemma_taken(walk, next as int);
        }
        next = next + 1;
    }
    proof {
        assert(walk.take(next as int) =~= walk);
        assert forall|id: u128| walk.contains(id) <==> rows@.contains_key(id) by {}
    }
    every
}

/// Whether each of some keys stands in a map.
pub open spec fn all_stored<T>(keys: Map<u128, ()>, rows: Map<u128, T>) -> bool {
    forall|id: u128| #[trigger] keys.contains_key(id) ==> rows.contains_key(id)
}

/// One of some keys that a map lacks.
pub fn first_missing<T>(keys: &IdMap<()>, rows: &IdMap<T>) -> (missing: Option<u128>)
    ensures
        missing is None <==> all_stored(keys@, rows@),
        missing matches Some(id) ==> keys@.contains_key(id) && !rows@.contains_key(id),
{
    let count: usize = keys.len();
    let ghost walk = keys.keys();
    let mut next: usize = 0;
    while next < count
        invariant
            next <= count,
            count == walk.len(),
            walk == keys.keys(),
            is_walk(walk, keys@),
            forall|i: int| 0 <= i < next ==> rows@.contains_key(#[trigger] walk[i]),
        decreases count - next,
    {
        let (key, _) = keys.entry_at(next);
        if !rows.contains_key(key) {
            return Some(key);
        }
        next = next + 1;
    }
    proof {
        assert forall|id: u128| #[trigger] keys@.contains_key(id) implies rows@.contains_key(
            id,
        ) by {
            assert(walk.contains(id));
            let i = walk.index_of(id);
            assert(rows@.contains_key(walk[i]));
        }
    }
    None
}

/// Whether one of some rows names a thing.
pub open spec fn picked_names<T: Names>(
    rows: Map<u128, T>,
    keys: Map<u128, ()>,
    kind: NameKind,
    id: u128,
) -> bool {
    exists|key: u128| #[trigger]
        keys.contains_key(key) && rows.contains_key(key) && rows[key].names(kind, id)
}

/// Adds what some rows of a map name.
pub fn add_picked_names<T: Names>(
    rows: &IdMap<T>,
    keys: &IdMap<()>,
    kind: NameKind,
    out: &mut IdMap<()>,
)
    ensures
        forall|id: u128| #[trigger]
            final(out)@.contains_key(id) <==> old(out)@.contains_key(id) || picked_names(
                rows@,
                keys@,
                kind,
                id,
            ),
{
    let count: usize = keys.len();
    let ghost walk = keys.keys();
    let mut next: usize = 0;
    while next < count
        invariant
            next <= count,
            count == walk.len(),
            walk == keys.keys(),
            is_walk(walk, keys@),
            forall|id: u128| #[trigger]
                out@.contains_key(id) <==> old(out)@.contains_key(id) || exists|i: int|
                    0 <= i < next && rows@.contains_key(#[trigger] walk[i]) && rows@[walk[i]].names(
                        kind,
                        id,
                    ),
        decreases count - next,
    {
        let ghost then = out@;
        let (key, _) = keys.entry_at(next);
        if let Some(row) = rows.get(key) {
            row.add_names(kind, out);
        }
        proof {
            assert(walk[next as int] == key);
            assert forall|id: u128| #[trigger]
                out@.contains_key(id) <==> old(out)@.contains_key(id) || exists|i: int|
                    0 <= i < next + 1 && rows@.contains_key(#[trigger] walk[i])
                        && rows@[walk[i]].names(kind, id) by {
                if then.contains_key(id) && !old(out)@.contains_key(id) {
                    let i = choose|i: int|
                        0 <= i < next && rows@.contains_key(#[trigger] walk[i])
                            && rows@[walk[i]].names(kind, id);
                    assert(rows@.contains_key(walk[i]));
                }
                if rows@.contains_key(key) && rows@[key].names(kind, id) {
                    assert(rows@.contains_key(walk[next as int]));
                }
            }
        }
        next = next + 1;
    }
    proof {
        assert forall|id: u128| #[trigger]
            out@.contains_key(id) <==> old(out)@.contains_key(id) || picked_names(
                rows@,
                keys@,
                kind,
                id,
            ) by {
            if picked_names(rows@, keys@, kind, id) {
                let key = choose|key: u128| #[trigger]
                    keys@.contains_key(key) && rows@.contains_key(key) && rows@[key].names(
                        kind,
                        id,
                    );
                assert(walk.contains(key));
                let i = walk.index_of(key);
                assert(rows@.contains_key(walk[i]));
            }
            if exists|i: int|
                0 <= i < next && rows@.contains_key(#[trigger] walk[i]) && rows@[walk[i]].names(
                    kind,
                    id,
                ) {
                let i = choose|i: int|
                    0 <= i < next && rows@.contains_key(#[trigger] walk[i])
                        && rows@[walk[i]].names(kind, id);
                assert(keys@.contains_key(walk[i]));
            }
        }
    }
}

/// Whether some row of a map, of a commit not before a point, names a thing.
pub open spec fn map_names_from<T: Names + OfCommit>(
    rows: Map<u128, T>,
    from: u64,
    kind: NameKind,
    id: u128,
) -> bool {
    exists|key: u128| #[trigger]
        rows.contains_key(key) && rows[key].seq_of() >= from && rows[key].names(kind, id)
}

/// Adds what the rows of a map, of commits not before a point, name.
pub fn add_map_names_from<T: Names + OfCommit>(
    rows: &IdMap<T>,
    from: u64,
    kind: NameKind,
    out: &mut IdMap<()>,
)
    ensures
        forall|id: u128| #[trigger]
            final(out)@.contains_key(id) <==> old(out)@.contains_key(id) || map_names_from(
                rows@,
                from,
                kind,
                id,
            ),
{
    let keys = keys_between(rows, from, u64::MAX);
    add_picked_names(rows, &keys, kind, out);
    proof {
        assert forall|id: u128| picked_names(rows@, keys@, kind, id) <==> map_names_from(
            rows@,
            from,
            kind,
            id,
        ) by {
            if picked_names(rows@, keys@, kind, id) {
                let key = choose|key: u128| #[trigger]
                    keys@.contains_key(key) && rows@.contains_key(key) && rows@[key].names(
                        kind,
                        id,
                    );
                assert(rows@.contains_key(key));
            }
            if map_names_from(rows@, from, kind, id) {
                let key = choose|key: u128| #[trigger]
                    rows@.contains_key(key) && rows@[key].seq_of() >= from && rows@[key].names(
                        kind,
                        id,
                    );
                assert(keys@.contains_key(key));
            }
        }
    }
}

impl Names for DeviceHead {
    open spec fn names(&self, kind: NameKind, id: u128) -> bool {
        match kind {
            NameKind::Root => lists_node(self.shard_roots@, id),
            NameKind::Device => self.device_id.0 == id,
            _ => false,
        }
    }

    fn add_names(&self, kind: NameKind, out: &mut IdMap<()>) {
        match kind {
            NameKind::Root => add_listed(&self.shard_roots, out),
            NameKind::Device => {
                out.insert(self.device_id.0, ());
            },
            _ => {},
        }
    }
}

impl Names for ForkRecord {
    open spec fn names(&self, kind: NameKind, id: u128) -> bool {
        match kind {
            NameKind::Root => lists_node(self.shard_roots@, id),
            NameKind::Device => self.source.0 == id || self.target.0 == id,
            _ => false,
        }
    }

    fn add_names(&self, kind: NameKind, out: &mut IdMap<()>) {
        match kind {
            NameKind::Root => add_listed(&self.shard_roots, out),
            NameKind::Device => {
                out.insert(self.source.0, ());
                out.insert(self.target.0, ());
            },
            _ => {},
        }
    }
}

impl Names for DeleteRecord {
    open spec fn names(&self, kind: NameKind, id: u128) -> bool {
        match kind {
            NameKind::Root => lists_node(self.shard_roots@, id),
            NameKind::Device => self.device_id.0 == id,
            _ => false,
        }
    }

    fn add_names(&self, kind: NameKind, out: &mut IdMap<()>) {
        match kind {
            NameKind::Root => add_listed(&self.shard_roots, out),
            NameKind::Device => {
                out.insert(self.device_id.0, ());
            },
            _ => {},
        }
    }
}

impl Names for ShardCommit {
    open spec fn names(&self, kind: NameKind, id: u128) -> bool {
        match kind {
            NameKind::Root => self.old_root.0 == id || self.new_root.0 == id,
            NameKind::Device => self.device_id.0 == id,
            _ => false,
        }
    }

    fn add_names(&self, kind: NameKind, out: &mut IdMap<()>) {
        match kind {
            NameKind::Root => {
                out.insert(self.old_root.0, ());
                out.insert(self.new_root.0, ());
            },
            NameKind::Device => {
                out.insert(self.device_id.0, ());
            },
            _ => {},
        }
    }
}

impl Names for FileCommit {
    open spec fn names(&self, kind: NameKind, id: u128) -> bool {
        match kind {
            NameKind::Root => self.new_root.0 == id || (self.old_root matches Some(old_root)
                && old_root.0 == id),
            NameKind::File(keyspace_id) => self.keyspace_id == keyspace_id && self.file_id.0 == id,
            NameKind::Keyspace => self.keyspace_id.0 == id,
            NameKind::NewRoot => self.new_root.0 == id,
            _ => false,
        }
    }

    fn add_names(&self, kind: NameKind, out: &mut IdMap<()>) {
        match kind {
            NameKind::Root => {
                if let Some(old_root) = self.old_root {
                    out.insert(old_root.0, ());
                }
                out.insert(self.new_root.0, ());
            },
            NameKind::File(keyspace_id) => {
                if self.keyspace_id.0 == keyspace_id.0 {
                    out.insert(self.file_id.0, ());
                }
            },
            NameKind::Keyspace => {
                out.insert(self.keyspace_id.0, ());
            },
            NameKind::NewRoot => {
                out.insert(self.new_root.0, ());
            },
            _ => {},
        }
    }
}

impl Names for RootUpdate {
    open spec fn names(&self, kind: NameKind, id: u128) -> bool {
        match kind {
            NameKind::Root => match self {
                RootUpdate::BlockShard(update) => update.old_root.0 == id || update.new_root.0
                    == id,
                RootUpdate::FileCreated { new_root, .. } => new_root.0 == id,
                RootUpdate::FileRoot { old_root, new_root, .. } => old_root.0 == id || new_root.0
                    == id,
            },
            NameKind::File(_) => match self {
                RootUpdate::BlockShard(_) => false,
                RootUpdate::FileCreated { file_id, .. } => file_id.0 == id,
                RootUpdate::FileRoot { file_id, .. } => file_id.0 == id,
            },
            _ => false,
        }
    }

    fn add_names(&self, kind: NameKind, out: &mut IdMap<()>) {
        match kind {
            NameKind::Root => match self {
                RootUpdate::BlockShard(update) => {
                    out.insert(update.old_root.0, ());
                    out.insert(update.new_root.0, ());
                },
                RootUpdate::FileCreated { new_root, .. } => {
                    out.insert(new_root.0, ());
                },
                RootUpdate::FileRoot { old_root, new_root, .. } => {
                    out.insert(old_root.0, ());
                    out.insert(new_root.0, ());
                },
            },
            NameKind::File(_) => match self {
                RootUpdate::BlockShard(_) => {},
                RootUpdate::FileCreated { file_id, .. } => {
                    out.insert(file_id.0, ());
                },
                RootUpdate::FileRoot { file_id, .. } => {
                    out.insert(file_id.0, ());
                },
            },
            _ => {},
        }
    }
}

impl Names for CommitGroup {
    open spec fn names(&self, kind: NameKind, id: u128) -> bool {
        match kind {
            NameKind::Root => list_names(self.updates@, NameKind::Root, id),
            NameKind::Device => self.owner matches MappingOwner::BlockDevice(device_id)
                && device_id.0 == id,
            NameKind::File(keyspace_id) => self.owner == MappingOwner::NativeKeyspace(keyspace_id)
                && list_names(self.updates@, kind, id),
            _ => false,
        }
    }

    fn add_names(&self, kind: NameKind, out: &mut IdMap<()>) {
        match kind {
            NameKind::Root => add_list_names(&self.updates, NameKind::Root, out),
            NameKind::Device => {
                if let MappingOwner::BlockDevice(device_id) = self.owner {
                    out.insert(device_id.0, ());
                }
            },
            NameKind::File(keyspace_id) => {
                if let MappingOwner::NativeKeyspace(owner) = self.owner {
                    if owner.0 == keyspace_id.0 {
                        add_list_names(&self.updates, kind, out);
                    }
                }
            },
            _ => {},
        }
    }
}

impl Names for Checkpoint {
    open spec fn names(&self, kind: NameKind, id: u128) -> bool {
        match self.roots {
            CheckpointRoots::BlockShard(roots) => match kind {
                NameKind::Root => lists_node(roots@, id),
                NameKind::Device => self.owner matches MappingOwner::BlockDevice(device_id)
                    && device_id.0 == id,
                _ => false,
            },
            CheckpointRoots::NativeKeyspace(root) => match kind {
                NameKind::KeyspaceRoot => root.0 == id,
                NameKind::KeyspaceRootOf(keyspace_id) => root.0 == id && self.owner
                    == MappingOwner::NativeKeyspace(keyspace_id),
                _ => false,
            },
        }
    }

    fn add_names(&self, kind: NameKind, out: &mut IdMap<()>) {
        match &self.roots {
            CheckpointRoots::BlockShard(roots) => match kind {
                NameKind::Root => add_listed(roots, out),
                NameKind::Device => {
                    if let MappingOwner::BlockDevice(device_id) = self.owner {
                        out.insert(device_id.0, ());
                    }
                },
                _ => {},
            },
            CheckpointRoots::NativeKeyspace(root) => {
                let named = match kind {
                    NameKind::KeyspaceRoot => true,
                    NameKind::KeyspaceRootOf(keyspace_id) => match self.owner {
                        MappingOwner::NativeKeyspace(owner) => owner.0 == keyspace_id.0,
                        MappingOwner::BlockDevice(_) => false,
                    },
                    _ => false,
                };
                if named {
                    out.insert(root.0, ());
                }
            },
        }
    }
}

/// Whether a list has a catalog shard.
pub open spec fn lists_shard(list: Seq<crate::id::KeyspaceCatalogShardId>, id: u128) -> bool {
    exists|i: int| 0 <= i < list.len() && (#[trigger] list[i]).0 == id
}

fn add_listed_shards(list: &Vec<crate::id::KeyspaceCatalogShardId>, out: &mut IdMap<()>)
    ensures
        forall|id: u128| #[trigger]
            final(out)@.contains_key(id) <==> old(out)@.contains_key(id) || lists_shard(list@, id),
{
    let mut next: usize = 0;
    while next < list.len()
        invariant
            next <= list@.len(),
            forall|id: u128| #[trigger]
                out@.contains_key(id) <==> old(out)@.contains_key(id) || lists_shard(
                    list@.take(next as int),
                    id,
                ),
        decreases list@.len() - next,
    {
        let ghost then = out@;
        out.insert(list[next].0, ());
        proof {
            let more = list@.take(next + 1);
            let less = list@.take(next as int);
            assert forall|id: u128| #[trigger]
                out@.contains_key(id) <==> old(out)@.contains_key(id) || lists_shard(more, id) by {
                if lists_shard(less, id) {
                    let i = choose|i: int| 0 <= i < less.len() && (#[trigger] less[i]).0 == id;
                    assert(more[i].0 == id);
                }
                if id == list@[next as int].0 {
                    assert(more[next as int].0 == id);
                }
                if lists_shard(more, id) {
                    let i = choose|i: int| 0 <= i < more.len() && (#[trigger] more[i]).0 == id;
                    if i < next {
                        assert(less[i].0 == id);
                    }
                }
                assert(then.contains_key(id) <==> old(out)@.contains_key(id) || lists_shard(
                    less,
                    id,
                ));
            }
        }
        next = next + 1;
    }
    assert(list@.take(next as int) =~= list@);
}

impl Names for KeyspaceHead {
    open spec fn names(&self, kind: NameKind, id: u128) -> bool {
        (kind == NameKind::Shard || kind == NameKind::ShardOf(self.keyspace_id)) && lists_shard(
            self.shard_roots@,
            id,
        )
    }

    fn add_names(&self, kind: NameKind, out: &mut IdMap<()>) {
        let named = match kind {
            NameKind::Shard => true,
            NameKind::ShardOf(keyspace_id) => keyspace_id.0 == self.keyspace_id.0,
            _ => false,
        };
        if named {
            add_listed_shards(&self.shard_roots, out);
        }
    }
}

impl Names for KeyspaceRoot {
    open spec fn names(&self, kind: NameKind, id: u128) -> bool {
        kind == NameKind::Shard && lists_shard(self.shard_roots@, id)
    }

    fn add_names(&self, kind: NameKind, out: &mut IdMap<()>) {
        if let NameKind::Shard = kind {
            add_listed_shards(&self.shard_roots, out);
        }
    }
}

impl Names for KeyspaceCommit {
    open spec fn names(&self, kind: NameKind, id: u128) -> bool {
        if kind == NameKind::Keyspace {
            self.keyspace_id.0 == id
        } else {
            (kind == NameKind::Shard || kind == NameKind::ShardOf(self.keyspace_id)) && (
            self.old_shard.0 == id || self.new_shard.0 == id)
        }
    }

    fn add_names(&self, kind: NameKind, out: &mut IdMap<()>) {
        let named = match kind {
            NameKind::Shard => true,
            NameKind::ShardOf(keyspace_id) => keyspace_id.0 == self.keyspace_id.0,
            _ => false,
        };
        if named {
            out.insert(self.old_shard.0, ());
            out.insert(self.new_shard.0, ());
        }
        if let NameKind::Keyspace = kind {
            out.insert(self.keyspace_id.0, ());
        }
    }
}

impl Names for LiveAppendStream {
    open spec fn names(&self, kind: NameKind, id: u128) -> bool {
        kind matches NameKind::File(keyspace_id) && self.state.keyspace_id == keyspace_id
            && self.state.file_id.0 == id
    }

    fn add_names(&self, kind: NameKind, out: &mut IdMap<()>) {
        if let NameKind::File(keyspace_id) = kind {
            if self.state.keyspace_id.0 == keyspace_id.0 {
                out.insert(self.state.file_id.0, ());
            }
        }
    }
}

impl Names for KeyspaceCatalogShard {
    open spec fn names(&self, kind: NameKind, id: u128) -> bool {
        match kind {
            NameKind::Root => exists|file: u128| #[trigger]
                self.files@.contains_key(file) && self.files@[file].head.root.0 == id,
            NameKind::File(_) => self.files@.contains_key(id),
            _ => false,
        }
    }

    fn add_names(&self, kind: NameKind, out: &mut IdMap<()>) {
        let roots = match kind {
            NameKind::Root => true,
            NameKind::File(_) => false,
            _ => return ,
        };
        let count: usize = self.files.len();
        let ghost keys = self.files.keys();
        let ghost files = self.files@;
        let mut next: usize = 0;
        while next < count
            invariant
                next <= count,
                count == keys.len(),
                keys == self.files.keys(),
                files == self.files@,
                is_walk(keys, files),
                forall|id: u128| #[trigger]
                    out@.contains_key(id) <==> old(out)@.contains_key(id) || exists|i: int|
                        0 <= i < next && (if roots {
                            files[#[trigger] keys[i]].head.root.0 == id
                        } else {
                            keys[i] == id
                        }),
            decreases count - next,
        {
            let ghost then = out@;
            let (key, file) = self.files.entry_at(next);
            let added: u128 = if roots {
                file.head.root.0
            } else {
                key
            };
            out.insert(added, ());
            proof {
                assert forall|id: u128| #[trigger]
                    out@.contains_key(id) <==> old(out)@.contains_key(id) || exists|i: int|
                        0 <= i < next + 1 && (if roots {
                            files[#[trigger] keys[i]].head.root.0 == id
                        } else {
                            keys[i] == id
                        }) by {
                    if then.contains_key(id) && !old(out)@.contains_key(id) {
                        let i = choose|i: int|
                            0 <= i < next && (if roots {
                                files[#[trigger] keys[i]].head.root.0 == id
                            } else {
                                keys[i] == id
                            });
                        assert(files.contains_key(keys[i]));
                    }
                    if id == added {
                        assert(files.contains_key(keys[next as int]));
                    }
                }
            }
            next = next + 1;
        }
        proof {
            assert forall|id: u128| #[trigger]
                out@.contains_key(id) <==> old(out)@.contains_key(id) || self.names(kind, id) by {
                if self.names(kind, id) {
                    let file = if roots {
                        choose|file: u128| #[trigger]
                            files.contains_key(file) && files[file].head.root.0 == id
                    } else {
                        id
                    };
                    assert(keys.contains(file));
                    let i = keys.index_of(file);
                    assert(keys[i] == file);
                }
                if exists|i: int|
                    0 <= i < next && (if roots {
                        files[#[trigger] keys[i]].head.root.0 == id
                    } else {
                        keys[i] == id
                    }) {
                    let i = choose|i: int|
                        0 <= i < next && (if roots {
                            files[#[trigger] keys[i]].head.root.0 == id
                        } else {
                            keys[i] == id
                        });
                    assert(files.contains_key(keys[i]));
                }
            }
        }
    }
}

} // verus!
