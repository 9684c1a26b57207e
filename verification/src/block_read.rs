//! Reading devices.
use vstd::prelude::*;

use crate::backing::{lemma_device_block_stored, lemma_whole_block_inside};
use crate::block_api::{ByteRange, ReadVerification};
use crate::coordinator::{LocalCoordinator, all_checked, lemma_block_of_byte, whole_blocks};
use crate::device_trees::{
    device_block_at, has_shard_at, lemma_shard_unique, shard_at, shard_covers, shards_wf,
};
use crate::error::StorageError;
use crate::grants::receipt_valid;
use crate::id::{DeviceId, MetadataNodeId};
use crate::idmap::IdMap;
use crate::leaf::SegmentBlock;
use crate::metadata_records::MetadataNode;
use crate::read_plan::{
    ReadByte, ReadExtent, ReadSource, assemble_read_plan,
    collect_segment_read_extents_for_metadata_node, extent_stored, extents_stored, read_at,
    read_extents_wf, segment_reaches, serves_extent, stored_byte_of, tree_reaches, tree_within,
};
use crate::storage_nodes::{SegmentRecord, StorageNodeRegistry, record_wf};
use crate::tree::{TreeStore, block_at};

verus! {

/// Where the bytes of a device come from.
pub open spec fn device_read(
    nodes: Map<u128, MetadataNode>,
    segments: Map<u128, SegmentRecord>,
    roots: Seq<MetadataNodeId>,
    block_size: u64,
    byte: int,
) -> Option<ReadByte> {
    match device_block_at(nodes, roots, byte / block_size as int) {
        Some(held) => Some(stored_byte_of(segments, held, block_size, byte)),
        None => None,
    }
}

spec fn shard_before(
    nodes: Map<u128, MetadataNode>,
    roots: Seq<MetadataNodeId>,
    count: int,
    block: int,
) -> bool {
    exists|s: int| 0 <= s < count && #[trigger] shard_covers(nodes, roots, s, block)
}

/// Whether the segments that a read of a device needs are there.
pub open spec fn device_reaches(
    nodes: Map<u128, MetadataNode>,
    segments: Map<u128, SegmentRecord>,
    roots: Seq<MetadataNodeId>,
    block_size: u64,
    requested: ByteRange,
) -> bool {
    forall|byte: int| #[trigger]
        requested.contains(byte) ==> (device_block_at(
            nodes,
            roots,
            byte / block_size as int,
        ) matches Some(held) ==> segment_reaches(segments, held, block_size, byte))
}

/// The extents of a read of a device.
#[verifier::rlimit(60)]
pub fn resolve_block_read_plan(
    store: &TreeStore,
    segments: &IdMap<SegmentRecord>,
    roots: &Vec<MetadataNodeId>,
    requested: ByteRange,
    block_size: u64,
    blocks: Ghost<int>,
    ids: Ghost<Set<u128>>,
) -> (result: Result<Vec<ReadExtent>, StorageError>)
    requires
        store.wf(block_size),
        shards_wf(store.nodes@, roots@, blocks@),
        requested.end() <= u64::MAX,
        requested.end() <= blocks@ * block_size,
    ensures
        result matches Ok(extents) ==> read_extents_wf(extents@, requested.len as int)
            && extents_stored(segments@, extents@) && forall|place: int|
            0 <= place < requested.len ==> #[trigger] read_at(extents@, place) == device_read(
                store.nodes@,
                segments@,
                roots@,
                block_size,
                requested.offset + place,
            ),
        device_reaches(store.nodes@, segments@, roots@, block_size, requested) ==> result is Ok,
        result matches Ok(extents) ==> (device_within(
            store.nodes@,
            roots@,
            block_size,
            requested,
            ids@,
        ) ==> extents_stored(segments@.restrict(ids@), extents@)),
{
    let ghost nodes = store.nodes@;
    let ghost owed = device_reaches(nodes, segments@, roots@, block_size, requested);
    let ghost within = device_within(nodes, roots@, block_size, requested, ids@);
    let mut extents: Vec<ReadExtent> = Vec::new();
    let mut s: usize = 0;
    while s < roots.len()
        invariant
            s <= roots@.len(),
            nodes == store.nodes@,
            store.wf(block_size),
            shards_wf(nodes, roots@, blocks@),
            requested.end() <= u64::MAX,
            requested.end() <= blocks@ * block_size,
            owed == device_reaches(nodes, segments@, roots@, block_size, requested),
            read_extents_wf(extents@, requested.len as int),
            extents_stored(segments@, extents@),
            within == device_within(nodes, roots@, block_size, requested, ids@),
            within ==> extents_stored(segments@.restrict(ids@), extents@),
            forall|place: int|
                0 <= place < requested.len ==> #[trigger] read_at(extents@, place)
                    == if shard_before(
                    nodes,
                    roots@,
                    s as int,
                    (requested.offset + place) / block_size as int,
                ) {
                    device_read(
                        nodes,
                        segments@,
                        roots@,
                        block_size,
                        requested.offset + place,
                    )
                } else {
                    None
                },
        decreases roots@.len() - s,
    {
        let root = roots[s];
        let ghost before = extents@;
        assert(nodes.contains_key(root.0));
        proof {
            if within {
                assert forall|byte: int| #[trigger] requested.contains(byte)
                    && nodes[root.0].covered_range.contains(
                    byte / block_size as int,
                ) implies (block_at(
                    nodes,
                    root.0,
                    byte / block_size as int,
                ) matches Some(held) ==> ids@.contains(held.segment_id.0)) by {
                    lemma_shard_unique(
                        nodes,
                        roots@,
                        blocks@,
                        s as int,
                        byte / block_size as int,
                    );
                }
                assert(tree_within(nodes, root.0, block_size, requested, ids@));
            }
            if owed {
                assert forall|byte: int| #[trigger] requested.contains(byte)
                    && nodes[root.0].covered_range.contains(
                    byte / block_size as int,
                ) implies (block_at(
                    nodes,
                    root.0,
                    byte / block_size as int,
                ) matches Some(held) ==> segment_reaches(segments@, held, block_size, byte)) by {
                    lemma_shard_unique(
                        nodes,
                        roots@,
                        blocks@,
                        s as int,
                        byte / block_size as int,
                    );
                }
                assert(tree_reaches(nodes, segments@, root.0, block_size, requested));
            }
        }
        match collect_segment_read_extents_for_metadata_node(
            store,
            segments,
            root,
            requested,
            block_size,
            &mut extents,
            ids,
        ) {
            Ok(()) => {},
            Err(error) => return Err(error),
        }
        proof {
            assert forall|place: int| 0 <= place < requested.len implies #[trigger] read_at(
                extents@,
                place,
            ) == (if shard_before(
                nodes,
                roots@,
                s + 1,
                (requested.offset + place) / block_size as int,
            ) {
                device_read(nodes, segments@, roots@, block_size, requested.offset + place)
            } else {
                None
            }) by {
                let byte = requested.offset + place;
                let block = byte / block_size as int;
                let below = read_at(before, place);
                assert(below == (if shard_before(nodes, roots@, s as int, block) {
                    device_read(nodes, segments@, roots@, block_size, byte)
                } else {
                    None
                }));
                if shard_covers(nodes, roots@, s as int, block) {
                    lemma_shard_unique(nodes, roots@, blocks@, s as int, block);
                    if shard_before(nodes, roots@, s as int, block) {
                        let t = choose|t: int|
                            0 <= t < s && #[trigger] shard_covers(nodes, roots@, t, block);
                        lemma_shard_unique(nodes, roots@, blocks@, t, block);
                    }
                    assert(shard_before(nodes, roots@, s + 1, block));
                } else {
                    assert(!nodes[root.0].covered_range.contains(block));
                    if shard_before(nodes, roots@, s + 1, block) {
                        let t = choose|t: int|
                            0 <= t < s + 1 && #[trigger] shard_covers(nodes, roots@, t, block);
                        assert(t < s);
                        assert(shard_before(nodes, roots@, s as int, block));
                    }
                    if shard_before(nodes, roots@, s as int, block) {
                        let t = choose|t: int|
                            0 <= t < s && #[trigger] shard_covers(nodes, roots@, t, block);
                        assert(shard_before(nodes, roots@, s + 1, block));
                    }
                }
            }
        }
        s = s + 1;
    }
    proof {
        assert forall|place: int| 0 <= place < requested.len implies #[trigger] read_at(
            extents@,
            place,
        ) == device_read(nodes, segments@, roots@, block_size, requested.offset + place) by {
            let byte = requested.offset + place;
            lemma_block_of_byte(byte, blocks@, block_size);
            let block = byte / block_size as int;
            assert(has_shard_at(nodes, roots@, block));
            let t = shard_at(nodes, roots@, block);
            assert(shard_covers(nodes, roots@, t, block));
            assert(shard_before(nodes, roots@, s as int, block));
        }
    }
    Ok(extents)
}

/// A read that finds its segments in a sound registry is served.
pub proof fn lemma_extent_served(
    registry: StorageNodeRegistry,
    extent: ReadExtent,
    block_size: u64,
    verification: ReadVerification,
)
    requires
        registry.wf(block_size),
        extent_stored(registry.segments@, extent),
        verification == ReadVerification::RequireVerified ==> extent_stored(
            registry.segments@.restrict(checked_ids(registry.segments@)),
            extent,
        ),
    ensures
        extent.source matches ReadSource::Segment {
            storage_node,
            segment_id,
            segment_offset,
            integrity,
        } ==> registry.answers_read(
            storage_node,
            segment_id,
            ByteRange { offset: segment_offset, len: extent.len },
            integrity,
            verification,
        ),
{
    if let ReadSource::Segment { storage_node, segment_id, segment_offset, integrity } =
        extent.source {
        assert(registry.segments@.contains_key(segment_id.0));
        assert(record_wf(registry.segments@[segment_id.0], segment_id.0, block_size));
        if verification == ReadVerification::RequireVerified {
            assert(checked_ids(registry.segments@).contains(segment_id.0));
        }
    }
}

/// A byte that an extent reads from a segment lies inside it.
proof fn lemma_read_reaches(
    segments: Map<u128, SegmentRecord>,
    extents: Seq<ReadExtent>,
    held: SegmentBlock,
    block_size: u64,
    byte: int,
    place: int,
)
    requires
        extents_stored(segments, extents),
        read_at(extents, place) == Some(stored_byte_of(segments, held, block_size, byte)),
        segments.contains_key(held.segment_id.0),
        segments[held.segment_id.0].entry.receipt matches Some(receipt) ==> receipt_valid(receipt),
    ensures
        segment_reaches(segments, held, block_size, byte),
    decreases extents.len(),
{
    let last = extents.last();
    assert(extents[extents.len() - 1] == last);
    assert(extent_stored(segments, last));
    if !last.contains(place) {
        let fewer = extents.drop_last();
        assert forall|i: int| 0 <= i < fewer.len() implies extent_stored(
            segments,
            #[trigger] fewer[i],
        ) by {
            assert(fewer[i] == extents[i]);
        }
        lemma_read_reaches(segments, fewer, held, block_size, byte, place);
    }
}

/// In a whole store every read of a device is served.
pub proof fn law_whole_store_serves_device_reads(
    store: LocalCoordinator,
    device_id: DeviceId,
    range: ByteRange,
    verification: ReadVerification,
)
    requires
        store.wf(),
        store.metadata.has_device(device_id),
        store.store_is_whole(verification),
    ensures
        store.serves_device_read(device_id, range, verification),
{
    let bs = store.block_size();
    let roots = store.metadata.roots_of(device_id);
    assert forall|byte: int| #[trigger] range.contains(byte) implies (device_block_at(
        store.nodes(),
        roots,
        byte / bs as int,
    ) matches Some(held) ==> segment_reaches(store.segments(), held, bs, byte)
        && store.segments().contains_key(held.segment_id.0)) by {
        if let Some(held) = device_block_at(store.nodes(), roots, byte / bs as int) {
            lemma_device_block_stored(store.nodes(), store.segments(), roots, byte / bs as int);
            assert(store.segments().contains_key(held.segment_id.0));
            vstd::arithmetic::div_mod::lemma_fundamental_div_mod(byte, bs as int);
            lemma_whole_block_inside(store.segments(), held, bs, byte % bs as int);
        }
    }
}

/// The segments whose receipts, if they have any, come with a checksum.
pub open spec fn checked_ids(segments: Map<u128, SegmentRecord>) -> Set<u128> {
    Set::new(
        |id: u128|
            segments.contains_key(id) && (segments[id].entry.receipt matches Some(receipt)
                ==> receipt.integrity is Crc32c),
    )
}

/// Whether the segments that a read of a device reaches have checksums.
pub open spec fn device_checked(
    nodes: Map<u128, MetadataNode>,
    segments: Map<u128, SegmentRecord>,
    roots: Seq<MetadataNodeId>,
    block_size: u64,
    requested: ByteRange,
) -> bool {
    device_within(nodes, roots, block_size, requested, checked_ids(segments))
}

/// Whether a read of a device reaches only some segments.
pub open spec fn device_within(
    nodes: Map<u128, MetadataNode>,
    roots: Seq<MetadataNodeId>,
    block_size: u64,
    requested: ByteRange,
    ids: Set<u128>,
) -> bool {
    forall|byte: int| #[trigger]
        requested.contains(byte) ==> (device_block_at(
            nodes,
            roots,
            byte / block_size as int,
        ) matches Some(held) ==> ids.contains(held.segment_id.0))
}

impl LocalCoordinator {
    /// Whether a read of a device is one that can be asked for.
    pub open spec fn takes_device_read(
        &self,
        device_id: DeviceId,
        range: ByteRange,
        len: int,
    ) -> bool {
        &&& self.metadata.has_device(device_id)
        &&& range.fits_device(self.metadata.device_specs@[device_id.0])
        &&& range.len == len
    }

    /// Whether the segments that a read of a device reaches have its bytes, and
    /// the checksums that it asks for.
    pub open spec fn serves_device_read(
        &self,
        device_id: DeviceId,
        range: ByteRange,
        verification: ReadVerification,
    ) -> bool {
        &&& device_reaches(
            self.nodes(),
            self.segments(),
            self.metadata.roots_of(device_id),
            self.block_size(),
            range,
        )
        &&& verification == ReadVerification::RequireVerified ==> device_checked(
            self.nodes(),
            self.segments(),
            self.metadata.roots_of(device_id),
            self.block_size(),
            range,
        )
    }

    /// Whether every segment of the store can be read to its end, under the
    /// checks that are asked for.
    pub open spec fn store_is_whole(&self, verification: ReadVerification) -> bool {
        &&& whole_blocks(self.segments(), self.block_size())
        &&& verification == ReadVerification::RequireVerified ==> all_checked(self.segments())
    }

    /// Fills `buf` with the bytes of a range of a device.
    pub fn read_device(&self, device_id: DeviceId, range: ByteRange, buf: &mut [u8]) -> (result:
        Result<(), StorageError>)
        requires
            self.wf(),
        ensures
            final(buf)@.len() == old(buf)@.len(),
            result is Err ==> final(buf)@ == old(buf)@,
            result is Ok ==> self.metadata.has_device(device_id) && range.fits_device(
                self.metadata.device_specs@[device_id.0],
            ) && range.len == old(buf)@.len(),
            result is Ok ==> forall|i: int|
                0 <= i < range.len ==> #[trigger] final(buf)@[i] == self.device_byte(
                    device_id,
                    range.offset + i,
                ),
            self.takes_device_read(device_id, range, old(buf)@.len() as int) && (
            self.serves_device_read(device_id, range, ReadVerification::Default)
                || self.store_is_whole(ReadVerification::Default) || self.maps_nothing(
                device_id,
                range,
            )) ==> result is Ok,
            result is Ok ==> self.serves_device_read(device_id, range, ReadVerification::Default),
            !self.metadata.has_device(device_id) ==> (result matches Err(error)
                && error is NotFound),
            self.metadata.has_device(device_id) && !range.fits_device(
                self.metadata.device_specs@[device_id.0],
            ) ==> (result matches Err(error) && error is InvalidArgument),
            self.metadata.has_device(device_id) && range.len != old(buf)@.len() ==> (
            result matches Err(error) && error is InvalidArgument),
    {
        self.read_device_with_verification(device_id, range, buf, ReadVerification::Default)
    }

    #[verifier::rlimit(40)]
    pub fn read_device_with_verification(
        &self,
        device_id: DeviceId,
        range: ByteRange,
        buf: &mut [u8],
        verification: ReadVerification,
    ) -> (result: Result<(), StorageError>)
        requires
            self.wf(),
        ensures
            final(buf)@.len() == old(buf)@.len(),
            result is Err ==> final(buf)@ == old(buf)@,
            result is Ok ==> self.metadata.has_device(device_id) && range.fits_device(
                self.metadata.device_specs@[device_id.0],
            ) && range.len == old(buf)@.len(),
            result is Ok ==> forall|i: int|
                0 <= i < range.len ==> #[trigger] final(buf)@[i] == self.device_byte(
                    device_id,
                    range.offset + i,
                ),
            self.takes_device_read(device_id, range, old(buf)@.len() as int) && (
            self.serves_device_read(device_id, range, verification) || self.store_is_whole(
                verification,
            ) || self.maps_nothing(device_id, range)) ==> result is Ok,
            result is Ok ==> self.serves_device_read(device_id, range, ReadVerification::Default),
            !self.metadata.has_device(device_id) ==> (result matches Err(error)
                && error is NotFound),
            self.metadata.has_device(device_id) && !range.fits_device(
                self.metadata.device_specs@[device_id.0],
            ) ==> (result matches Err(error) && error is InvalidArgument),
            self.metadata.has_device(device_id) && range.len != old(buf)@.len() ==> (
            result matches Err(error) && error is InvalidArgument),
    {
        let bs: u64 = self.config.block_size as u64;
        let info = match self.device_info(device_id) {
            Ok(info) => info,
            Err(error) => return Err(error),
        };
        assert(self.metadata.device_heads@.contains_key(device_id.0));
        match range.validate_for_device(&info.spec) {
            Ok(()) => {},
            Err(error) => return Err(error),
        }
        if range.len != buf.len() as u64 {
            return Err(StorageError::invalid_argument("read buffer length disagrees with range"));
        }
        if range.len == 0 {
            assert(self.maps_nothing(device_id, range));
            return Ok(());
        }
        let head = match self.metadata.device_heads.get(device_id.raw()) {
            Some(head) => head,
            None => return Err(StorageError::not_found("device", device_id.raw())),
        };
        let ghost roots = head.shard_roots@;
        let ghost blocks = self.metadata.blocks_of(device_id);
        proof {
            if self.store_is_whole(verification) {
                law_whole_store_serves_device_reads(*self, device_id, range, verification);
            }
            if self.maps_nothing(device_id, range) {
                assert(self.serves_device_read(device_id, range, verification));
            }
        }
        let ghost owed = self.serves_device_read(device_id, range, verification);
        let ghost checked = checked_ids(self.segments());
        let extents = match resolve_block_read_plan(
            &self.metadata.trees,
            &self.storage_nodes.segments,
            &head.shard_roots,
            range,
            bs,
            Ghost(blocks),
            Ghost(checked),
        ) {
            Ok(extents) => extents,
            Err(error) => return Err(error),
        };
        proof {
            if owed {
                assert forall|i: int| 0 <= i < extents@.len() implies serves_extent(
                    self,
                    #[trigger] extents@[i],
                    verification,
                ) by {
                    assert(extent_stored(self.segments(), extents@[i]));
                    if verification == ReadVerification::RequireVerified {
                        assert(extent_stored(self.segments().restrict(checked), extents@[i]));
                    }
                    lemma_extent_served(self.storage_nodes, extents@[i], bs, verification);
                }
            }
        }
        let result = assemble_read_plan(self, &extents, verification, buf);
        proof {
            assert forall|byte: int| #[trigger] range.contains(byte) implies (device_block_at(
                self.nodes(),
                roots,
                byte / bs as int,
            ) matches Some(held) ==> segment_reaches(self.segments(), held, bs, byte)) by {
                if let Some(held) = device_block_at(self.nodes(), roots, byte / bs as int) {
                    let place = byte - range.offset;
                    assert(read_at(extents@, place) == device_read(
                        self.nodes(),
                        self.segments(),
                        roots,
                        bs,
                        range.offset + place,
                    ));
                    lemma_block_of_byte(byte, blocks, bs);
                    lemma_device_block_stored(
                        self.nodes(),
                        self.segments(),
                        roots,
                        byte / bs as int,
                    );
                    assert(self.segments().contains_key(held.segment_id.0));
                    assert(record_wf(
                        self.segments()[held.segment_id.0],
                        held.segment_id.0,
                        bs,
                    ));
                    lemma_read_reaches(self.segments(), extents@, held, bs, byte, place);
                }
            }
            if result is Ok {
                assert forall|i: int| 0 <= i < range.len implies #[trigger] buf@[i]
                    == self.device_byte(device_id, range.offset + i) by {
                    assert(read_at(extents@, i) == device_read(
                        self.nodes(),
                        self.segments(),
                        roots,
                        bs,
                        range.offset + i,
                    ));
                }
            }
        }
        result
    }
}

} // verus!
