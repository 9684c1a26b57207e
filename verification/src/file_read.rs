//! Files: what they hold, and reading them.
use vstd::prelude::*;

use crate::backing::{lemma_block_stored, lemma_whole_block_inside};
use crate::block_api::{ByteRange, ReadVerification};
use crate::block_read::{checked_ids, lemma_extent_served};
use crate::coordinator::{LocalCoordinator, lemma_block_of_byte, segment_byte};
use crate::error::StorageError;
use crate::id::{FileId, KeyspaceId, MetadataNodeId};
use crate::idmap::IdMap;
use crate::metadata_records::MetadataNode;
use crate::native_api::FileInfo;
use crate::read_plan::{
    ReadByte, ReadExtent, RunLogMap, assemble_read_plan,
    collect_append_run_read_extents_for_metadata_node,
    collect_segment_read_extents_for_metadata_node, extent_logged, extent_stored, extents_stored,
    logged_byte_of, read_at, read_extents_wf, run_read, segment_reaches, segment_read,
    serves_extent, stored_byte_of, tree_reaches, tree_runs_backed, tree_within,
    trim_segment_read_extents_for_append_runs,
};
use crate::storage_nodes::SegmentRecord;
use crate::tree::{TreeStore, block_at, run_at};

verus! {

/// The byte that a file's tree leads to: a run's, else a segment's, else zero.
pub open spec fn tree_byte(
    nodes: Map<u128, MetadataNode>,
    segments: Map<u128, SegmentRecord>,
    logs: RunLogMap,
    root: MetadataNodeId,
    block_size: u64,
    byte: int,
) -> u8 {
    match run_at(nodes, root.0, block_size, byte) {
        Some(logged) => logs[(logged.storage_node, logged.log_id)][logged.offset],
        None => segment_byte(
            segments,
            block_at(nodes, root.0, byte / block_size as int),
            block_size,
            byte,
        ),
    }
}

/// Where the bytes of a file come from.
pub open spec fn file_read(
    nodes: Map<u128, MetadataNode>,
    segments: Map<u128, SegmentRecord>,
    root: MetadataNodeId,
    block_size: u64,
    byte: int,
) -> Option<ReadByte> {
    match run_at(nodes, root.0, block_size, byte) {
        Some(logged) => Some(logged_byte_of(logged)),
        None => match block_at(nodes, root.0, byte / block_size as int) {
            Some(held) => Some(stored_byte_of(segments, held, block_size, byte)),
            None => None,
        },
    }
}

/// The last extents decide.
proof fn lemma_read_concat(lower: Seq<ReadExtent>, upper: Seq<ReadExtent>, place: int)
    ensures
        read_at(lower + upper, place) == match read_at(upper, place) {
            Some(byte) => Some(byte),
            None => read_at(lower, place),
        },
    decreases upper.len(),
{
    if upper.len() == 0 {
        assert(lower + upper =~= lower);
    } else {
        assert((lower + upper).drop_last() =~= lower + upper.drop_last());
        assert((lower + upper).last() == upper.last());
        lemma_read_concat(lower, upper.drop_last(), place);
    }
}

/// The extents of a read of a file.
#[verifier::rlimit(60)]
pub fn resolve_file_read_plan(
    store: &TreeStore,
    segments: &IdMap<SegmentRecord>,
    root: MetadataNodeId,
    requested: ByteRange,
    block_size: u64,
    logs: Ghost<RunLogMap>,
    ids: Ghost<Set<u128>>,
) -> (result: Result<Vec<ReadExtent>, StorageError>)
    requires
        store.wf(block_size),
        store.nodes@.contains_key(root.0),
        store.nodes@[root.0].covered_range.start.0 == 0,
        tree_runs_backed(store.nodes@, logs@),
        requested.end() <= u64::MAX,
        requested.end() <= store.nodes@[root.0].covered_range.end() * block_size,
    ensures
        result matches Ok(extents) ==> read_extents_wf(extents@, requested.len as int) && (forall|
            place: int,
        |
            0 <= place < requested.len ==> #[trigger] read_at(extents@, place) == file_read(
                store.nodes@,
                segments@,
                root,
                block_size,
                requested.offset + place,
            )) && forall|i: int|
            0 <= i < extents@.len() ==> extent_stored(segments@, #[trigger] extents@[i])
                || extent_logged(logs@, extents@[i]),
        tree_reaches(store.nodes@, segments@, root.0, block_size, requested) ==> result is Ok,
        result matches Ok(extents) ==> (tree_within(
            store.nodes@,
            root.0,
            block_size,
            requested,
            ids@,
        ) && no_runs(store.nodes@, root.0, block_size, requested) ==> extents_stored(
            segments@.restrict(ids@),
            extents@,
        )),
{
    let ghost nodes = store.nodes@;
    let ghost part = segments@.restrict(ids@);
    let ghost within = tree_within(nodes, root.0, block_size, requested, ids@);
    let ghost kept = if within {
        part
    } else {
        segments@
    };
    let mut segment_extents: Vec<ReadExtent> = Vec::new();
    match collect_segment_read_extents_for_metadata_node(
        store,
        segments,
        root,
        requested,
        block_size,
        &mut segment_extents,
        ids,
    ) {
        Ok(()) => {},
        Err(error) => return Err(error),
    }
    let mut run_extents: Vec<ReadExtent> = Vec::new();
    match collect_append_run_read_extents_for_metadata_node(
        store,
        root,
        requested,
        block_size,
        &mut run_extents,
        logs,
    ) {
        Ok(()) => {},
        Err(error) => return Err(error),
    }
    let mut extents = match trim_segment_read_extents_for_append_runs(
        &segment_extents,
        &run_extents,
        Ghost(requested.len as int),
        Ghost(kept),
    ) {
        Ok(extents) => extents,
        Err(error) => return Err(error),
    };
    let ghost lower = extents@;
    let ghost upper = run_extents@;
    extents.append(&mut run_extents);
    proof {
        assert(extents_stored(segments@, lower)) by {
            assert forall|i: int| 0 <= i < lower.len() implies extent_stored(
                segments@,
                #[trigger] lower[i],
            ) by {
                assert(extent_stored(kept, lower[i]));
            }
        }
        if no_runs(nodes, root.0, block_size, requested) && upper.len() > 0 {
            let last = upper.last();
            assert(upper[upper.len() - 1].wf(requested.len as int));
            let place = last.output_offset as int;
            assert(read_at(upper, place) is Some);
            assert(requested.contains(requested.offset + place));
            assert(read_at(upper, place) == run_read(
                nodes,
                root.0,
                block_size,
                requested.offset + place,
                None,
            ));
        }
        assert(extents@ =~= lower + upper);
        assert forall|place: int| 0 <= place < requested.len implies #[trigger] read_at(
            extents@,
            place,
        ) == file_read(nodes, segments@, root, block_size, requested.offset + place) by {
            let byte = requested.offset + place;
            lemma_read_concat(lower, upper, place);
            lemma_block_of_byte(byte, nodes[root.0].covered_range.end(), block_size);
            assert(nodes[root.0].covered_range.contains(byte / block_size as int));
            assert(read_at(upper, place) == run_read(nodes, root.0, block_size, byte, None));
            assert(read_at(lower, place) == (if read_at(upper, place) is Some {
                None
            } else {
                read_at(segment_extents@, place)
            }));
            assert(read_at(segment_extents@, place) == segment_read(
                nodes,
                segments@,
                root.0,
                block_size,
                byte,
                None,
            ));
        }
        assert forall|i: int| 0 <= i < extents@.len() implies extent_stored(
            segments@,
            #[trigger] extents@[i],
        ) || extent_logged(logs@, extents@[i]) by {
            if i < lower.len() {
                assert(extents@[i] == lower[i]);
            } else {
                assert(extents@[i] == upper[i - lower.len()]);
            }
        }
        assert(read_extents_wf(extents@, requested.len as int)) by {
            assert forall|i: int| 0 <= i < extents@.len() implies (#[trigger] extents@[i]).wf(
                requested.len as int,
            ) by {
                if i < lower.len() {
                    assert(lower[i].wf(requested.len as int));
                } else {
                    assert(upper[i - lower.len()].wf(requested.len as int));
                }
            }
        }
    }
    Ok(extents)
}

/// Whether no byte of a range is in a run log.
pub open spec fn no_runs(
    nodes: Map<u128, MetadataNode>,
    id: u128,
    block_size: u64,
    requested: ByteRange,
) -> bool {
    forall|byte: int| #[trigger]
        requested.contains(byte) ==> run_at(nodes, id, block_size, byte) is None
}

/// In a whole store every read of a file is served.
pub proof fn law_whole_store_serves_file_reads(
    store: LocalCoordinator,
    keyspace_id: KeyspaceId,
    file_id: FileId,
    range: ByteRange,
    verification: ReadVerification,
)
    requires
        store.wf(),
        store.metadata.has_file(keyspace_id, file_id),
        store.store_is_whole(verification),
        verification == ReadVerification::RequireVerified ==> store.file_has_no_runs(
            keyspace_id,
            file_id,
            range,
        ),
    ensures
        store.serves_file_read(keyspace_id, file_id, range, verification),
{
    let bs = store.block_size();
    store.metadata.lemma_file_wf(keyspace_id, file_id, bs);
    let root = store.metadata.file_head(keyspace_id, file_id)->0.root.0;
    assert forall|byte: int| #[trigger] range.contains(byte)
        && store.nodes()[root].covered_range.contains(byte / bs as int) implies (block_at(
        store.nodes(),
        root,
        byte / bs as int,
    ) matches Some(held) ==> segment_reaches(store.segments(), held, bs, byte)
        && store.segments().contains_key(held.segment_id.0)) by {
        if let Some(held) = block_at(store.nodes(), root, byte / bs as int) {
            lemma_block_stored(store.nodes(), store.segments(), root, byte / bs as int);
            assert(store.segments().contains_key(held.segment_id.0));
            vstd::arithmetic::div_mod::lemma_fundamental_div_mod(byte, bs as int);
            lemma_whole_block_inside(store.segments(), held, bs, byte % bs as int);
        }
    }
    if verification == ReadVerification::RequireVerified {
        assert(tree_within(store.nodes(), root, bs, range, checked_ids(store.segments())));
    }
    assert(tree_reaches(store.nodes(), store.segments(), root, bs, range));
}

impl LocalCoordinator {
    /// The byte that a file has at a place.
    pub open spec fn file_byte(
        &self,
        keyspace_id: KeyspaceId,
        file_id: FileId,
        byte: int,
    ) -> u8 {
        tree_byte(
            self.nodes(),
            self.segments(),
            self.logs(),
            self.metadata.file_head(keyspace_id, file_id)->0.root,
            self.block_size(),
            byte,
        )
    }

    pub open spec fn file_size(&self, keyspace_id: KeyspaceId, file_id: FileId) -> int {
        self.metadata.file_head(keyspace_id, file_id)->0.size as int
    }

    /// Where a file's tree ends.
    pub open spec fn file_limit(&self, keyspace_id: KeyspaceId, file_id: FileId) -> int {
        self.nodes()[self.metadata.file_head(keyspace_id, file_id)->0.root.0].covered_range.end()
            * self.block_size()
    }

    /// Whether there are only zeroes behind the end of a file.
    pub open spec fn clean_tail(&self, keyspace_id: KeyspaceId, file_id: FileId) -> bool {
        forall|byte: int|
            self.file_size(keyspace_id, file_id) <= byte < self.file_limit(keyspace_id, file_id)
                ==> #[trigger] self.file_byte(keyspace_id, file_id, byte) == 0
    }

    pub fn file_info(&self, keyspace_id: KeyspaceId, file_id: FileId) -> (result: Result<
        FileInfo,
        StorageError,
    >)
        requires
            self.wf(),
        ensures
            result is Ok <==> self.metadata.has_file(keyspace_id, file_id),
            result matches Ok(info) ==> info == (FileInfo {
                keyspace_id,
                file_id,
                size: self.metadata.file_head(keyspace_id, file_id)->0.size,
                version: self.metadata.file_head(keyspace_id, file_id)->0.version,
            }),
            result matches Err(error) ==> error is NotFound,
    {
        assert(self.metadata.files_wf(self.block_size()));
        match self.metadata.get_file_head(keyspace_id, file_id) {
            Ok(head) => Ok(
                FileInfo { keyspace_id, file_id, size: head.size, version: head.version },
            ),
            Err(error) => Err(error),
        }
    }

    /// Whether a read of a file is one that can be asked for.
    pub open spec fn takes_file_read(
        &self,
        keyspace_id: KeyspaceId,
        file_id: FileId,
        range: ByteRange,
        len: int,
    ) -> bool {
        &&& self.metadata.has_file(keyspace_id, file_id)
        &&& range.end() <= self.file_size(keyspace_id, file_id)
        &&& range.len == len
    }

    /// Whether no byte of a range of a file is in a run log.
    pub open spec fn file_has_no_runs(
        &self,
        keyspace_id: KeyspaceId,
        file_id: FileId,
        range: ByteRange,
    ) -> bool {
        no_runs(
            self.nodes(),
            self.metadata.file_head(keyspace_id, file_id)->0.root.0,
            self.block_size(),
            range,
        )
    }

    /// Whether the segments that a read of a file reaches have its bytes, and the
    /// checksums that it asks for. A part of a run has no checksum of its own, so
    /// a read that asks for checksums is sure of its answer where there are no
    /// runs.
    pub open spec fn serves_file_read(
        &self,
        keyspace_id: KeyspaceId,
        file_id: FileId,
        range: ByteRange,
        verification: ReadVerification,
    ) -> bool {
        let root = self.metadata.file_head(keyspace_id, file_id)->0.root.0;
        &&& tree_reaches(self.nodes(), self.segments(), root, self.block_size(), range)
        &&& verification == ReadVerification::RequireVerified ==> tree_within(
            self.nodes(),
            root,
            self.block_size(),
            range,
            checked_ids(self.segments()),
        ) && self.file_has_no_runs(keyspace_id, file_id, range)
    }

    /// Fills `buf` with the bytes of a range of a file.
    pub fn read_file(
        &self,
        keyspace_id: KeyspaceId,
        file_id: FileId,
        range: ByteRange,
        buf: &mut [u8],
    ) -> (result: Result<(), StorageError>)
        requires
            self.wf(),
        ensures
            final(buf)@.len() == old(buf)@.len(),
            result is Err ==> final(buf)@ == old(buf)@,
            result is Ok ==> self.metadata.has_file(keyspace_id, file_id) && range.end()
                <= self.file_size(keyspace_id, file_id) && range.len == old(buf)@.len(),
            result is Ok ==> forall|i: int|
                0 <= i < range.len ==> #[trigger] final(buf)@[i] == self.file_byte(
                    keyspace_id,
                    file_id,
                    range.offset + i,
                ),
            self.takes_file_read(keyspace_id, file_id, range, old(buf)@.len() as int) && (
            range.len == 0 || self.serves_file_read(
                keyspace_id,
                file_id,
                range,
                ReadVerification::Default,
            ) || self.store_is_whole(ReadVerification::Default)) ==> result is Ok,
            !self.metadata.has_file(keyspace_id, file_id) ==> (result matches Err(error)
                && error is NotFound),
            self.metadata.has_file(keyspace_id, file_id) && range.end() > self.file_size(
                keyspace_id,
                file_id,
            ) ==> (result matches Err(error) && error is InvalidArgument),
            self.metadata.has_file(keyspace_id, file_id) && range.len != old(buf)@.len() ==> (
            result matches Err(error) && error is InvalidArgument),
    {
        self.read_file_with_verification(
            keyspace_id,
            file_id,
            range,
            buf,
            ReadVerification::Default,
        )
    }

    #[verifier::rlimit(40)]
    pub fn read_file_with_verification(
        &self,
        keyspace_id: KeyspaceId,
        file_id: FileId,
        range: ByteRange,
        buf: &mut [u8],
        verification: ReadVerification,
    ) -> (result: Result<(), StorageError>)
        requires
            self.wf(),
        ensures
            final(buf)@.len() == old(buf)@.len(),
            result is Err ==> final(buf)@ == old(buf)@,
            result is Ok ==> self.metadata.has_file(keyspace_id, file_id) && range.end()
                <= self.file_size(keyspace_id, file_id) && range.len == old(buf)@.len(),
            result is Ok ==> forall|i: int|
                0 <= i < range.len ==> #[trigger] final(buf)@[i] == self.file_byte(
                    keyspace_id,
                    file_id,
                    range.offset + i,
                ),
            self.takes_file_read(keyspace_id, file_id, range, old(buf)@.len() as int) && (
            range.len == 0 || self.serves_file_read(keyspace_id, file_id, range, verification) || (
            self.store_is_whole(verification) && (verification == ReadVerification::RequireVerified
                ==> self.file_has_no_runs(keyspace_id, file_id, range)))) ==> result is Ok,
            !self.metadata.has_file(keyspace_id, file_id) ==> (result matches Err(error)
                && error is NotFound),
            self.metadata.has_file(keyspace_id, file_id) && range.end() > self.file_size(
                keyspace_id,
                file_id,
            ) ==> (result matches Err(error) && error is InvalidArgument),
            self.metadata.has_file(keyspace_id, file_id) && range.len != old(buf)@.len() ==> (
            result matches Err(error) && error is InvalidArgument),
    {
        let bs: u64 = self.config.block_size as u64;
        assert(self.metadata.files_wf(self.block_size()));
        let head = match self.metadata.get_file_head(keyspace_id, file_id) {
            Ok(head) => head,
            Err(error) => return Err(error),
        };
        proof {
            self.metadata.lemma_file_wf(keyspace_id, file_id, bs);
        }
        let end: u64 = match range.end_exclusive() {
            Ok(end) => end,
            Err(error) => return Err(error),
        };
        if end > head.size {
            return Err(
                StorageError::invalid_argument("native file read extends past end of file"),
            );
        }
        if range.len != buf.len() as u64 {
            return Err(StorageError::invalid_argument("read buffer length disagrees with range"));
        }
        if range.len == 0 {
            return Ok(());
        }
        proof {
            if self.store_is_whole(verification) && (verification
                == ReadVerification::RequireVerified ==> self.file_has_no_runs(
                keyspace_id,
                file_id,
                range,
            )) {
                law_whole_store_serves_file_reads(*self, keyspace_id, file_id, range, verification);
            }
        }
        let ghost owed = self.serves_file_read(keyspace_id, file_id, range, verification);
        let ghost checked = checked_ids(self.segments());
        let extents = match resolve_file_read_plan(
            &self.metadata.trees,
            &self.storage_nodes.segments,
            head.root,
            range,
            bs,
            Ghost(self.logs()),
            Ghost(checked),
        ) {
            Ok(extents) => extents,
            Err(error) => return Err(error),
        };
        proof {
            if owed {
                assert forall|i: int| 0 <= i < extents@.len() implies serves_extent(
                    self,
                    #[trigger] extents@[i],
                    verification,
                ) by {
                    if verification == ReadVerification::RequireVerified {
                        assert(extent_stored(self.segments().restrict(checked), extents@[i]));
                    }
                    if extent_stored(self.segments(), extents@[i]) {
                        lemma_extent_served(self.storage_nodes, extents@[i], bs, verification);
                    } else {
                        assert(extent_logged(self.logs(), extents@[i]));
                    }
                }
            }
        }
        let result = assemble_read_plan(self, &extents, verification, buf);
        proof {
            if result is Ok {
                assert forall|i: int| 0 <= i < range.len implies #[trigger] buf@[i]
                    == self.file_byte(keyspace_id, file_id, range.offset + i) by {
                    assert(read_at(extents@, i) == file_read(
                        self.nodes(),
                        self.segments(),
                        head.root,
                        bs,
                        range.offset + i,
                    ));
                }
            }
        }
        result
    }
}

} // verus!
