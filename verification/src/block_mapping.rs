//! Zeroes and discards, and the replay of what a commit left behind.
use vstd::prelude::*;

use crate::block_api::{BlockRange, ByteRange, WriteCommit, WriteDurability};
use crate::block_chunks::{
    DeviceWriteChunk, chunk_in_shard, chunks_cover, chunks_wf, split_device_range,
};
use crate::block_commit::{delta_edit, delta_edits, publish_counted};
use crate::block_read::{device_reaches, device_read, resolve_block_read_plan};
use crate::coordinator::{BlockWriterLease, LocalCoordinator, lemma_block_of_byte};
use crate::delta_records::{BlockDeltaCommit, BlockDeltaEntry, BlockDeltaReplacement};
use crate::device_trees::{
    bases_wf, device_block_at, edits_apart, edits_in_shards, lemma_shard_unique,
};
use crate::error::StorageError;
use crate::id::{BlockCount, BlockIndex, DeviceId, MetadataNodeId};
use crate::metadata_records::MetadataNode;
use crate::read_plan::{ReadExtent, read_at, read_extents_wf};
use crate::tree::{TreeRangeEdit, edits_backed, is_edited, law_trees_are_immutable};
use crate::tree_edit::{edit_outcome, lemma_byte_in_blocks};

verus! {

/// A committed change of a mapping and the delta that it left.
pub struct BlockMappingCommitWithDelta {
    pub commit: WriteCommit,
    pub delta: Option<BlockDeltaCommit>,
}

/// The edits that take the chunks' blocks out.
fn sparse_edits(chunks: &Vec<DeviceWriteChunk>) -> (edits: Vec<TreeRangeEdit>)
    ensures
        edits@.len() == chunks@.len(),
        forall|i: int|
            0 <= i < edits@.len() ==> #[trigger] edits@[i] == (TreeRangeEdit {
                range: chunks@[i].range,
                replacement: None,
            }),
{
    let mut edits: Vec<TreeRangeEdit> = Vec::new();
    let mut i: usize = 0;
    while i < chunks.len()
        invariant
            i <= chunks@.len(),
            edits@.len() == i,
            forall|k: int|
                0 <= k < i ==> #[trigger] edits@[k] == (TreeRangeEdit {
                    range: chunks@[k].range,
                    replacement: None,
                }),
        decreases chunks@.len() - i,
    {
        edits.push(TreeRangeEdit { range: chunks[i].range, replacement: None });
        i = i + 1;
    }
    edits
}

proof fn lemma_sparse_edits_fit(
    nodes: Map<u128, MetadataNode>,
    roots: Seq<MetadataNodeId>,
    chunks: Seq<DeviceWriteChunk>,
    edits: Seq<TreeRangeEdit>,
)
    requires
        chunks_wf(nodes, roots, chunks),
        edits.len() == chunks.len(),
        forall|i: int|
            0 <= i < edits.len() ==> #[trigger] edits[i] == (TreeRangeEdit {
                range: chunks[i].range,
                replacement: None,
            }),
    ensures
        edits_apart(edits),
        bases_wf(edits),
        edits_in_shards(nodes, roots, edits),
        forall|segments: Map<u128, crate::storage_nodes::SegmentRecord>| #[trigger]
            edits_backed(edits, segments),
{
    assert forall|i: int| 0 <= i < edits.len() implies (#[trigger] edits[i]).range.blocks.0 > 0
        && edits[i].range.end() <= u64::MAX by {
        assert(chunk_in_shard(nodes, roots, chunks[i]));
    }
    assert forall|i: int, j: int| 0 <= i < j < edits.len() implies (#[trigger] edits[i]).range.end()
        <= (#[trigger] edits[j]).range.start.0 || edits[j].range.end()
        <= edits[i].range.start.0 by {
        assert(chunks[i].range.end() <= chunks[j].range.start.0);
    }
    assert forall|i: int| 0 <= i < edits.len() implies exists|s: int|
        0 <= s < roots.len() && nodes[(#[trigger] roots[s]).0].covered_range.start.0 <= (
        #[trigger] edits[i]).range.start.0 && edits[i].range.end()
            <= nodes[roots[s].0].covered_range.end() by {
        assert(chunk_in_shard(nodes, roots, chunks[i]));
        let s = chunks[i].shard_id.0 as int;
        assert(roots[s] == chunks[i].old_root);
    }
}

/// The delta entries of the chunks whose shard changed.
fn sparse_entries(
    chunks: &Vec<DeviceWriteChunk>,
    new_roots: &Vec<MetadataNodeId>,
) -> (entries: Vec<BlockDeltaEntry>)
    requires
        forall|i: int|
            0 <= i < chunks@.len() ==> (#[trigger] chunks@[i]).shard_id.0 < new_roots@.len(),
    ensures
        forall|i: int|
            0 <= i < entries@.len() ==> (#[trigger] entries@[i]).replacement
                is Sparse && exists|k: int|
                0 <= k < chunks@.len() && (#[trigger] chunks@[k]).range == entries@[i].range
                    && chunks@[k].shard_id == entries@[i].shard_id,
        forall|k: int|
            0 <= k < chunks@.len() && (#[trigger] chunks@[k]).old_root
                != new_roots@[chunks@[k].shard_id.0 as int] ==> exists|i: int|
                0 <= i < entries@.len() && (#[trigger] entries@[i]).range == chunks@[k].range,
{
    let mut entries: Vec<BlockDeltaEntry> = Vec::new();
    let mut c: usize = 0;
    while c < chunks.len()
        invariant
            c <= chunks@.len(),
            forall|i: int|
                0 <= i < chunks@.len() ==> (#[trigger] chunks@[i]).shard_id.0 < new_roots@.len(),
            forall|i: int|
                0 <= i < entries@.len() ==> (#[trigger] entries@[i]).replacement
                    is Sparse && exists|k: int|
                    0 <= k < chunks@.len() && (#[trigger] chunks@[k]).range == entries@[i].range
                        && chunks@[k].shard_id == entries@[i].shard_id,
            forall|k: int|
                0 <= k < c && (#[trigger] chunks@[k]).old_root
                    != new_roots@[chunks@[k].shard_id.0 as int] ==> exists|i: int|
                    0 <= i < entries@.len() && (#[trigger] entries@[i]).range == chunks@[k].range,
        decreases chunks@.len() - c,
    {
        let chunk = chunks[c];
        let ghost before = entries@;
        assert(chunks@[c as int] == chunk);
        if new_roots[chunk.shard_id.0 as usize].0 != chunk.old_root.0 {
            entries.push(
                BlockDeltaEntry {
                    shard_id: chunk.shard_id,
                    range: chunk.range,
                    replacement: BlockDeltaReplacement::Sparse,
                },
            );
        }
        proof {
            assert forall|k: int|
                0 <= k < c + 1 && (#[trigger] chunks@[k]).old_root
                    != new_roots@[chunks@[k].shard_id.0 as int] implies exists|i: int|
                0 <= i < entries@.len() && (#[trigger] entries@[i]).range == chunks@[k].range by {
                if k < c {
                    let i = choose|i: int|
                        0 <= i < before.len() && (#[trigger] before[i]).range == chunks@[k].range;
                    assert(entries@[i] == before[i]);
                } else {
                    assert(entries@[before.len() as int].range == chunk.range);
                }
            }
        }
        c = c + 1;
    }
    entries
}

impl LocalCoordinator {
    /// Whether a range of a device reads as zeroes and the rest is as it was.
    pub open spec fn range_zeroed(
        &self,
        before: &LocalCoordinator,
        device_id: DeviceId,
        range: ByteRange,
    ) -> bool {
        forall|byte: int|
            0 <= byte < before.device_bytes(device_id) ==> #[trigger] self.device_byte(
                device_id,
                byte,
            ) == if range.contains(byte) {
                0
            } else {
                before.device_byte(device_id, byte)
            }
    }

    /// Whether no block of a range of a device is mapped.
    pub open spec fn maps_nothing(&self, device_id: DeviceId, range: ByteRange) -> bool {
        forall|byte: int| #[trigger]
            range.contains(byte) ==> device_block_at(
                self.nodes(),
                self.metadata.roots_of(device_id),
                byte / self.block_size() as int,
            ) is None
    }

    /// Takes a range out of a device. No commit is made where nothing of it is
    /// mapped.
    #[verifier::rlimit(100)]
    #[verifier::spinoff_prover]
    pub fn discard_device_with_delta(
        &mut self,
        device_id: DeviceId,
        offset: u64,
        len: u64,
    ) -> (result: Result<BlockMappingCommitWithDelta, StorageError>)
        requires
            old(self).wf(),
        ensures
            final(self).only_device_changed(old(self), device_id),
            final(self).moved_within(old(self), 0),
            final(self).storage_nodes == old(self).storage_nodes,
            result is Ok ==> old(self).metadata.has_device(device_id) && (ByteRange {
                offset,
                len,
            }).fits_device(old(self).metadata.device_specs@[device_id.0])
                && final(self).range_zeroed(old(self), device_id, ByteRange { offset, len }),
            result matches Ok(committed) ==> committed.commit == (WriteCommit {
                device_id,
                commit_seq: final(self).metadata.device_heads@[device_id.0].latest_commit,
                range: ByteRange { offset, len },
                durability: WriteDurability::Acknowledged,
            }),
            old(self).metadata.has_device(device_id) && (ByteRange { offset, len }).fits_device(
                old(self).metadata.device_specs@[device_id.0],
            ) && old(self).maps_nothing(device_id, ByteRange { offset, len }) ==> result is Ok,
            old(self).metadata.has_device(device_id) && !(ByteRange { offset, len }).fits_device(
                old(self).metadata.device_specs@[device_id.0],
            ) ==> (result matches Err(error) && error is InvalidArgument) && *final(self) == *old(self),
            result matches Ok(committed) ==> {
                &&& (committed.delta is None <==> old(self).maps_nothing(
                    device_id,
                    ByteRange { offset, len },
                ))
                &&& (committed.delta is None ==> *final(self) == *old(self))
                &&& final(self).maps_nothing(device_id, ByteRange { offset, len })
                &&& (committed.delta matches Some(delta) ==> {
                    &&& delta.device_id == device_id
                    &&& delta.commit_seq == committed.commit.commit_seq
                    &&& delta.commit_seq.0 == old(self).metadata.next_commit_seq
                    &&& delta.write_count == 1
                    &&& delta.collapsed_range_count == delta.entries@.len()
                    &&& delta.committed_bytes == len
                    &&& final(self).device_edited(
                        old(self),
                        device_id,
                        delta_edits(delta.entries@),
                    )
                })
            },
            result is Err ==> final(self).metadata.device_heads == old(self).metadata.device_heads,
            result is Err ==> !old(self).metadata.has_device(device_id) || !(ByteRange {
                offset,
                len,
            }).fits_device(old(self).metadata.device_specs@[device_id.0])
                || !old(self).room_for(0),
            !old(self).metadata.has_device(device_id) ==> (result matches Err(error)
                && error is NotFound),
            result matches Ok(committed) ==> (committed.delta is Some
                ==> final(self).metadata.block_commit_recorded(
                &old(self).metadata,
                device_id,
                committed.commit.commit_seq,
            )),
            result matches Ok(committed) ==> final(self).observability.counters
                == publish_counted(
                old(self).observability.counters,
                true,
                committed.delta is Some,
            ),
    {
        let ghost before = *self;
        let bs: u64 = self.config.block_size as u64;
        let info = match self.device_info(device_id) {
            Ok(info) => info,
            Err(error) => return Err(error),
        };
        assert(self.metadata.device_heads@.contains_key(device_id.0));
        let range = ByteRange { offset, len };
        match range.validate_for_device(&info.spec) {
            Ok(()) => {},
            Err(error) => return Err(error),
        }
        if len == 0 {
            return Ok(
                BlockMappingCommitWithDelta {
                    commit: WriteCommit {
                        device_id,
                        commit_seq: info.latest_commit,
                        range,
                        durability: WriteDurability::Acknowledged,
                    },
                    delta: None,
                },
            );
        }
        let ghost roots = before.metadata.roots_of(device_id);
        let ghost blocks = before.metadata.blocks_of(device_id);
        let requested = BlockRange {
            start: BlockIndex(offset / bs),
            blocks: BlockCount(len / bs),
        };
        proof {
            lemma_range_blocks(range, requested, bs, blocks);
        }
        let (old_roots, generation) = match self.metadata.device_heads.get(device_id.raw()) {
            Some(head) => (crate::tree::copy_vec(&head.shard_roots), head.generation),
            None => return Err(StorageError::not_found("device", device_id.raw())),
        };
        let unmapped = match resolve_block_read_plan(
            &self.metadata.trees,
            &self.storage_nodes.segments,
            &old_roots,
            range,
            bs,
            Ghost(blocks),
            Ghost(Set::empty()),
        ) {
            Ok(extents) => {
                proof {
                    lemma_unmapped(before, device_id, range, extents@);
                }
                extents.len() == 0
            },
            Err(_) => {
                proof {
                    if before.maps_nothing(device_id, range) {
                        assert(device_reaches(before.nodes(), before.segments(), roots, bs, range));
                    }
                }
                false
            },
        };
        if unmapped {
            proof {
                assert forall|byte: int|
                    0 <= byte < before.device_bytes(device_id) implies #[trigger] self.device_byte(
                    device_id,
                    byte,
                ) == (if range.contains(byte) {
                    0
                } else {
                    before.device_byte(device_id, byte)
                }) by {}
            }
            return Ok(
                BlockMappingCommitWithDelta {
                    commit: WriteCommit {
                        device_id,
                        commit_seq: info.latest_commit,
                        range,
                        durability: WriteDurability::Acknowledged,
                    },
                    delta: None,
                },
            );
        }
        let chunks = match split_device_range(
            &self.metadata.trees,
            &old_roots,
            requested,
            bs,
            Ghost(blocks),
        ) {
            Ok(chunks) => chunks,
            Err(error) => return Err(error),
        };
        let edits = sparse_edits(&chunks);
        proof {
            lemma_sparse_edits_fit(before.nodes(), roots, chunks@, edits@);
            assert(edits_backed(edits@, before.segments()));
        }
        let published = self.publish_device_edits(device_id, generation, &edits, true);
        proof {
            if published is Ok {
                assert forall|byte: int|
                    0 <= byte < before.device_bytes(device_id) implies #[trigger] self.device_byte(
                    device_id,
                    byte,
                ) == (if range.contains(byte) {
                    0
                } else {
                    before.device_byte(device_id, byte)
                }) by {
                    lemma_discarded_byte(
                        before,
                        *self,
                        device_id,
                        chunks@,
                        edits@,
                        requested,
                        range,
                        byte,
                    );
                }
            }
        }
        proof {
            if published is Ok {
                assert forall|byte: int| #[trigger] range.contains(byte) implies device_block_at(
                    self.nodes(),
                    self.metadata.roots_of(device_id),
                    byte / bs as int,
                ) is None by {
                    lemma_discarded_block(
                        before,
                        *self,
                        device_id,
                        chunks@,
                        edits@,
                        requested,
                        range,
                        byte,
                    );
                }
            }
        }
        let seq = match published {
            Ok(Some(seq)) => seq,
            Ok(None) => {
                assert(before.maps_nothing(device_id, range));
                assert(false);
                return Err(StorageError::conflict("nothing changed"));
            },
            Err(error) => return Err(error),
        };
        assert(self.metadata.device_heads@.dom().contains(device_id.0));
        let new_roots = match self.metadata.device_heads.get(device_id.raw()) {
            Some(head) => crate::tree::copy_vec(&head.shard_roots),
            None => return Err(StorageError::not_found("device", device_id.raw())),
        };
        proof {
            assert(new_roots@.len() == roots.len()) by {
                assert(self.same_shards(&before, device_id));
            }
            assert forall|i: int| 0 <= i < chunks@.len() implies (
            #[trigger] chunks@[i]).shard_id.0 < new_roots@.len() by {
                assert(chunk_in_shard(before.nodes(), roots, chunks@[i]));
            }
        }
        let entries = sparse_entries(&chunks, &new_roots);
        proof {
            assert forall|block: int| 0 <= block < blocks implies edit_outcome(
                delta_edits(entries@),
                block,
                device_block_at(before.nodes(), roots, block),
                #[trigger] device_block_at(self.nodes(), self.metadata.roots_of(device_id), block),
            ) by {
                lemma_sparse_outcome(
                    before,
                    *self,
                    device_id,
                    chunks@,
                    edits@,
                    entries@,
                    block,
                );
            }
        }
        Ok(
            BlockMappingCommitWithDelta {
                commit: WriteCommit {
                    device_id,
                    commit_seq: seq,
                    range,
                    durability: WriteDurability::Acknowledged,
                },
                delta: Some(
                    BlockDeltaCommit {
                        device_id,
                        commit_seq: seq,
                        write_count: 1,
                        collapsed_range_count: entries.len() as u64,
                        committed_bytes: len,
                        entries,
                    },
                ),
            },
        )
    }

    /// Whether a device has as many shards as before, over the same blocks.
    pub open spec fn same_shards(&self, before: &LocalCoordinator, device_id: DeviceId) -> bool {
        let old_roots = before.metadata.roots_of(device_id);
        let new_roots = self.metadata.roots_of(device_id);
        &&& new_roots.len() == old_roots.len()
        &&& forall|s: int|
            0 <= s < old_roots.len() ==> self.nodes()[(
            #[trigger] new_roots[s]).0].covered_range
                == before.nodes()[old_roots[s].0].covered_range
    }

    /// Takes a range out of a device; it reads as zeroes.
    pub fn discard_device(&mut self, device_id: DeviceId, offset: u64, len: u64) -> (result: Result<
        WriteCommit,
        StorageError,
    >)
        requires
            old(self).wf(),
        ensures
            final(self).only_device_changed(old(self), device_id),
            final(self).moved_within(old(self), 0),
            final(self).storage_nodes == old(self).storage_nodes,
            result is Ok ==> old(self).metadata.has_device(device_id) && (ByteRange {
                offset,
                len,
            }).fits_device(old(self).metadata.device_specs@[device_id.0])
                && final(self).range_zeroed(old(self), device_id, ByteRange { offset, len }),
            result matches Ok(commit) ==> commit == (WriteCommit {
                device_id,
                commit_seq: final(self).metadata.device_heads@[device_id.0].latest_commit,
                range: ByteRange { offset, len },
                durability: WriteDurability::Acknowledged,
            }),
            result matches Ok(commit) ==> final(self).maps_nothing(
                device_id,
                ByteRange { offset, len },
            ) && if old(self).maps_nothing(device_id, ByteRange { offset, len }) {
                *final(self) == *old(self)
            } else {
                commit.commit_seq.0 == old(self).metadata.next_commit_seq && commit.commit_seq.0
                    > old(self).metadata.device_heads@[device_id.0].latest_commit.0
            },
            old(self).metadata.has_device(device_id) && (ByteRange { offset, len }).fits_device(
                old(self).metadata.device_specs@[device_id.0],
            ) && old(self).maps_nothing(device_id, ByteRange { offset, len }) ==> result is Ok,
            !old(self).metadata.has_device(device_id) ==> (result matches Err(error)
                && error is NotFound),
            old(self).metadata.has_device(device_id) && !(ByteRange { offset, len }).fits_device(
                old(self).metadata.device_specs@[device_id.0],
            ) ==> (result matches Err(error) && error is InvalidArgument) && *final(self) == *old(self),
            result is Err ==> final(self).metadata.device_heads == old(self).metadata.device_heads,
            result is Err ==> !old(self).metadata.has_device(device_id) || !(ByteRange {
                offset,
                len,
            }).fits_device(old(self).metadata.device_specs@[device_id.0])
                || !old(self).room_for(0),
            result matches Ok(commit) ==> (!old(self).maps_nothing(
                device_id,
                ByteRange { offset, len },
            ) ==> final(self).metadata.block_commit_recorded(
                &old(self).metadata,
                device_id,
                commit.commit_seq,
            )),
    {
        match self.discard_device_with_delta(device_id, offset, len) {
            Ok(committed) => Ok(committed.commit),
            Err(error) => Err(error),
        }
    }

    /// Writes zeroes, which takes no space.
    pub fn write_zeroes(&mut self, device_id: DeviceId, offset: u64, len: u64) -> (result: Result<
        WriteCommit,
        StorageError,
    >)
        requires
            old(self).wf(),
        ensures
            final(self).only_device_changed(old(self), device_id),
            final(self).moved_within(old(self), 0),
            final(self).storage_nodes == old(self).storage_nodes,
            result is Ok ==> old(self).metadata.has_device(device_id) && (ByteRange {
                offset,
                len,
            }).fits_device(old(self).metadata.device_specs@[device_id.0])
                && final(self).range_zeroed(old(self), device_id, ByteRange { offset, len }),
            result matches Ok(commit) ==> commit == (WriteCommit {
                device_id,
                commit_seq: final(self).metadata.device_heads@[device_id.0].latest_commit,
                range: ByteRange { offset, len },
                durability: WriteDurability::Acknowledged,
            }),
            result matches Ok(commit) ==> final(self).maps_nothing(
                device_id,
                ByteRange { offset, len },
            ) && if old(self).maps_nothing(device_id, ByteRange { offset, len }) {
                *final(self) == *old(self)
            } else {
                commit.commit_seq.0 == old(self).metadata.next_commit_seq && commit.commit_seq.0
                    > old(self).metadata.device_heads@[device_id.0].latest_commit.0
            },
            old(self).metadata.has_device(device_id) && (ByteRange { offset, len }).fits_device(
                old(self).metadata.device_specs@[device_id.0],
            ) && old(self).maps_nothing(device_id, ByteRange { offset, len }) ==> result is Ok,
            !old(self).metadata.has_device(device_id) ==> (result matches Err(error)
                && error is NotFound),
            old(self).metadata.has_device(device_id) && !(ByteRange { offset, len }).fits_device(
                old(self).metadata.device_specs@[device_id.0],
            ) ==> (result matches Err(error) && error is InvalidArgument) && *final(self) == *old(self),
            result is Err ==> final(self).metadata.device_heads == old(self).metadata.device_heads,
            result is Err ==> !old(self).metadata.has_device(device_id) || !(ByteRange {
                offset,
                len,
            }).fits_device(old(self).metadata.device_specs@[device_id.0])
                || !old(self).room_for(0),
            result matches Ok(commit) ==> (!old(self).maps_nothing(
                device_id,
                ByteRange { offset, len },
            ) ==> final(self).metadata.block_commit_recorded(
                &old(self).metadata,
                device_id,
                commit.commit_seq,
            )),
    {
        self.discard_device(device_id, offset, len)
    }

    pub fn write_zeroes_with_writer(
        &mut self,
        lease: &BlockWriterLease,
        offset: u64,
        len: u64,
    ) -> (result: Result<WriteCommit, StorageError>)
        requires
            old(self).wf(),
        ensures
            final(self).only_device_changed(old(self), lease.device_id),
            final(self).moved_within(old(self), 0),
            result is Ok ==> old(self).lease_valid(*lease) && (ByteRange {
                offset,
                len,
            }).fits_device(old(self).metadata.device_specs@[lease.device_id.0])
                && final(self).range_zeroed(old(self), lease.device_id, ByteRange { offset, len }),
            result matches Ok(commit) ==> commit == (WriteCommit {
                device_id: lease.device_id,
                commit_seq: final(self).metadata.device_heads@[lease.device_id.0].latest_commit,
                range: ByteRange { offset, len },
                durability: WriteDurability::Acknowledged,
            }),
            result matches Ok(commit) ==> final(self).maps_nothing(
                lease.device_id,
                ByteRange { offset, len },
            ) && if old(self).maps_nothing(lease.device_id, ByteRange { offset, len }) {
                *final(self) == *old(self)
            } else {
                commit.commit_seq.0 == old(self).metadata.next_commit_seq && commit.commit_seq.0
                    > old(self).metadata.device_heads@[lease.device_id.0].latest_commit.0
            },
            old(self).lease_valid(*lease) && (ByteRange { offset, len }).fits_device(
                old(self).metadata.device_specs@[lease.device_id.0],
            ) && old(self).maps_nothing(lease.device_id, ByteRange { offset, len })
                ==> result is Ok,
            old(self).lease_valid(*lease) && !(ByteRange { offset, len }).fits_device(
                old(self).metadata.device_specs@[lease.device_id.0],
            ) ==> (result matches Err(error) && error is InvalidArgument) && *final(self) == *old(self),
            !old(self).lease_valid(*lease) ==> result == Err::<WriteCommit, StorageError>(
                old(self).lease_fault(*lease),
            ) && *final(self) == *old(self),
            result is Err ==> !old(self).lease_valid(*lease) || !(ByteRange {
                offset,
                len,
            }).fits_device(old(self).metadata.device_specs@[lease.device_id.0])
                || !old(self).room_for(0),
            result matches Ok(commit) ==> (!old(self).maps_nothing(
                lease.device_id,
                ByteRange { offset, len },
            ) ==> final(self).metadata.block_commit_recorded(
                &old(self).metadata,
                lease.device_id,
                commit.commit_seq,
            )),
    {
        match self.validate_block_writer(lease) {
            Ok(()) => {},
            Err(error) => return Err(error),
        }
        self.write_zeroes(lease.device_id, offset, len)
    }

    pub fn discard_device_with_writer(
        &mut self,
        lease: &BlockWriterLease,
        offset: u64,
        len: u64,
    ) -> (result: Result<WriteCommit, StorageError>)
        requires
            old(self).wf(),
        ensures
            final(self).only_device_changed(old(self), lease.device_id),
            final(self).moved_within(old(self), 0),
            result is Ok ==> old(self).lease_valid(*lease) && (ByteRange {
                offset,
                len,
            }).fits_device(old(self).metadata.device_specs@[lease.device_id.0])
                && final(self).range_zeroed(old(self), lease.device_id, ByteRange { offset, len }),
            result matches Ok(commit) ==> commit == (WriteCommit {
                device_id: lease.device_id,
                commit_seq: final(self).metadata.device_heads@[lease.device_id.0].latest_commit,
                range: ByteRange { offset, len },
                durability: WriteDurability::Acknowledged,
            }),
            result matches Ok(commit) ==> final(self).maps_nothing(
                lease.device_id,
                ByteRange { offset, len },
            ) && if old(self).maps_nothing(lease.device_id, ByteRange { offset, len }) {
                *final(self) == *old(self)
            } else {
                commit.commit_seq.0 == old(self).metadata.next_commit_seq && commit.commit_seq.0
                    > old(self).metadata.device_heads@[lease.device_id.0].latest_commit.0
            },
            old(self).lease_valid(*lease) && (ByteRange { offset, len }).fits_device(
                old(self).metadata.device_specs@[lease.device_id.0],
            ) && old(self).maps_nothing(lease.device_id, ByteRange { offset, len })
                ==> result is Ok,
            old(self).lease_valid(*lease) && !(ByteRange { offset, len }).fits_device(
                old(self).metadata.device_specs@[lease.device_id.0],
            ) ==> (result matches Err(error) && error is InvalidArgument) && *final(self) == *old(self),
            !old(self).lease_valid(*lease) ==> result == Err::<WriteCommit, StorageError>(
                old(self).lease_fault(*lease),
            ) && *final(self) == *old(self),
            result is Err ==> !old(self).lease_valid(*lease) || !(ByteRange {
                offset,
                len,
            }).fits_device(old(self).metadata.device_specs@[lease.device_id.0])
                || !old(self).room_for(0),
            result matches Ok(commit) ==> (!old(self).maps_nothing(
                lease.device_id,
                ByteRange { offset, len },
            ) ==> final(self).metadata.block_commit_recorded(
                &old(self).metadata,
                lease.device_id,
                commit.commit_seq,
            )),
    {
        match self.validate_block_writer(lease) {
            Ok(()) => {},
            Err(error) => return Err(error),
        }
        self.discard_device(lease.device_id, offset, len)
    }
}

proof fn lemma_range_blocks(range: ByteRange, requested: BlockRange, block_size: u64, blocks: int)
    requires
        block_size > 0,
        range.len > 0,
        range.offset % block_size == 0,
        range.len % block_size == 0,
        range.end() <= blocks * block_size,
        range.end() <= u64::MAX,
        requested.start.0 == range.offset / block_size,
        requested.blocks.0 == range.len / block_size,
    ensures
        requested.blocks.0 > 0,
        requested.end() <= blocks,
        requested.end() <= u64::MAX,
        requested.start.0 * block_size == range.offset,
        requested.end() * block_size == range.end(),
{
    let b = block_size as int;
    vstd::arithmetic::div_mod::lemma_fundamental_div_mod(range.offset as int, b);
    vstd::arithmetic::div_mod::lemma_fundamental_div_mod(range.len as int, b);
    let (s, n) = (requested.start.0 as int, requested.blocks.0 as int);
    assert(s * b == range.offset && n * b == range.len && (s + n) * b == range.end())
        by (nonlinear_arith)
        requires
            range.offset == b * s,
            range.len == b * n,
            range.end() == range.offset + range.len,
    ;
    assert(n > 0 && s + n <= blocks && s + n <= u64::MAX) by (nonlinear_arith)
        requires
            n * b == range.len,
            range.len > 0,
            (s + n) * b == range.end(),
            range.end() <= blocks * b,
            range.end() <= u64::MAX,
            b >= 1,
            s >= 0,
            n >= 0,
    ;
}

/// The plan of a read has no extent where nothing is mapped.
proof fn lemma_unmapped(
    store: LocalCoordinator,
    device_id: DeviceId,
    range: ByteRange,
    extents: Seq<ReadExtent>,
)
    requires
        read_extents_wf(extents, range.len as int),
        forall|place: int|
            0 <= place < range.len ==> #[trigger] read_at(extents, place) == device_read(
                store.nodes(),
                store.segments(),
                store.metadata.roots_of(device_id),
                store.block_size(),
                range.offset + place,
            ),
    ensures
        extents.len() == 0 <==> store.maps_nothing(device_id, range),
{
    if extents.len() == 0 {
        assert forall|byte: int| #[trigger] range.contains(byte) implies device_block_at(
            store.nodes(),
            store.metadata.roots_of(device_id),
            byte / store.block_size() as int,
        ) is None by {
            assert(read_at(extents, byte - range.offset) is None);
        }
    } else {
        let last = extents.last();
        assert(extents[extents.len() - 1].wf(range.len as int));
        let place = last.output_offset as int;
        assert(read_at(extents, place) is Some);
        assert(range.contains(range.offset + place));
    }
}

/// No block of a range is mapped once it was taken out.
proof fn lemma_discarded_block(
    before: LocalCoordinator,
    after: LocalCoordinator,
    device_id: DeviceId,
    chunks: Seq<DeviceWriteChunk>,
    edits: Seq<TreeRangeEdit>,
    requested: BlockRange,
    range: ByteRange,
    byte: int,
)
    requires
        before.wf(),
        after.device_edited(&before, device_id, edits),
        edits.len() == chunks.len(),
        forall|i: int|
            0 <= i < edits.len() ==> #[trigger] edits[i] == (TreeRangeEdit {
                range: chunks[i].range,
                replacement: None,
            }),
        forall|block: int| #[trigger] chunks_cover(chunks, block) == requested.contains(block),
        requested.start.0 * before.block_size() == range.offset,
        requested.end() * before.block_size() == range.end(),
        range.contains(byte),
        0 <= byte < before.device_bytes(device_id),
    ensures
        device_block_at(
            after.nodes(),
            after.metadata.roots_of(device_id),
            byte / before.block_size() as int,
        ) is None,
{
    let bs = before.block_size();
    let block = byte / bs as int;
    lemma_block_of_byte(byte, before.metadata.blocks_of(device_id), bs);
    lemma_byte_in_blocks(requested, bs, byte);
    assert(edit_outcome(
        edits,
        block,
        device_block_at(before.nodes(), before.metadata.roots_of(device_id), block),
        device_block_at(after.nodes(), after.metadata.roots_of(device_id), block),
    ));
    assert(chunks_cover(chunks, block));
    let i = choose|i: int| 0 <= i < chunks.len() && (#[trigger] chunks[i]).range.contains(block);
    assert(edits[i].range.contains(block));
}

proof fn lemma_discarded_byte(
    before: LocalCoordinator,
    after: LocalCoordinator,
    device_id: DeviceId,
    chunks: Seq<DeviceWriteChunk>,
    edits: Seq<TreeRangeEdit>,
    requested: BlockRange,
    range: ByteRange,
    byte: int,
)
    requires
        before.wf(),
        after.device_edited(&before, device_id, edits),
        after.storage_nodes == before.storage_nodes,
        after.config == before.config,
        edits.len() == chunks.len(),
        forall|i: int|
            0 <= i < edits.len() ==> #[trigger] edits[i] == (TreeRangeEdit {
                range: chunks[i].range,
                replacement: None,
            }),
        forall|block: int| #[trigger] chunks_cover(chunks, block) == requested.contains(block),
        requested.start.0 * before.block_size() == range.offset,
        requested.end() * before.block_size() == range.end(),
        0 <= byte < before.device_bytes(device_id),
    ensures
        after.device_byte(device_id, byte) == if range.contains(byte) {
            0
        } else {
            before.device_byte(device_id, byte)
        },
{
    let bs = before.block_size();
    let block = byte / bs as int;
    lemma_block_of_byte(byte, before.metadata.blocks_of(device_id), bs);
    lemma_byte_in_blocks(requested, bs, byte);
    let new_block = device_block_at(after.nodes(), after.metadata.roots_of(device_id), block);
    assert(edit_outcome(
        edits,
        block,
        device_block_at(before.nodes(), before.metadata.roots_of(device_id), block),
        new_block,
    ));
    assert(chunks_cover(chunks, block) == requested.contains(block));
    if requested.contains(block) {
        let i = choose|i: int| 0 <= i < chunks.len() && (#[trigger] chunks[i]).range.contains(block);
        assert(edits[i].range.contains(block));
    } else if is_edited(edits, block) {
        let i = choose|i: int| 0 <= i < edits.len() && (#[trigger] edits[i]).range.contains(block);
        assert(chunks[i].range.contains(block));
    }
}

proof fn lemma_sparse_outcome(
    before: LocalCoordinator,
    after: LocalCoordinator,
    device_id: DeviceId,
    chunks: Seq<DeviceWriteChunk>,
    edits: Seq<TreeRangeEdit>,
    entries: Seq<BlockDeltaEntry>,
    block: int,
)
    requires
        before.wf(),
        before.metadata.has_device(device_id),
        after.keeps_store(&before),
        after.device_edited(&before, device_id, edits),
        after.same_shards(&before, device_id),
        after.wf(),
        after.metadata.has_device(device_id),
        after.metadata.device_specs == before.metadata.device_specs,
        chunks_wf(before.nodes(), before.metadata.roots_of(device_id), chunks),
        edits.len() == chunks.len(),
        forall|i: int|
            0 <= i < edits.len() ==> #[trigger] edits[i] == (TreeRangeEdit {
                range: chunks[i].range,
                replacement: None,
            }),
        forall|i: int|
            0 <= i < entries.len() ==> (#[trigger] entries[i]).replacement is Sparse && exists|k: int|
                0 <= k < chunks.len() && (#[trigger] chunks[k]).range == entries[i].range
                    && chunks[k].shard_id == entries[i].shard_id,
        forall|k: int|
            0 <= k < chunks.len() && (#[trigger] chunks[k]).old_root != after.metadata.roots_of(
                device_id,
            )[chunks[k].shard_id.0 as int] ==> exists|i: int|
                0 <= i < entries.len() && (#[trigger] entries[i]).range == chunks[k].range,
        0 <= block < before.metadata.blocks_of(device_id),
    ensures
        edit_outcome(
            delta_edits(entries),
            block,
            device_block_at(before.nodes(), before.metadata.roots_of(device_id), block),
            device_block_at(after.nodes(), after.metadata.roots_of(device_id), block),
        ),
{
    let roots = before.metadata.roots_of(device_id);
    let new_roots = after.metadata.roots_of(device_id);
    let old_block = device_block_at(before.nodes(), roots, block);
    let new_block = device_block_at(after.nodes(), new_roots, block);
    let delta = delta_edits(entries);
    assert(before.metadata.device_heads@.contains_key(device_id.0));
    assert(after.metadata.device_heads@.contains_key(device_id.0));
    assert(edit_outcome(edits, block, old_block, new_block));
    assert forall|i: int| 0 <= i < delta.len() && (#[trigger] delta[i]).range.contains(
        block,
    ) implies new_block == delta[i].value_at(block) by {
        assert(delta[i] == delta_edit(entries[i]));
        let k = choose|k: int|
            0 <= k < chunks.len() && (#[trigger] chunks[k]).range == entries[i].range
                && chunks[k].shard_id == entries[i].shard_id;
        assert(edits[k].range.contains(block));
    }
    if !is_edited(delta, block) && is_edited(edits, block) {
        let k = choose|k: int| 0 <= k < edits.len() && (#[trigger] edits[k]).range.contains(block);
        let chunk = chunks[k];
        let s = chunk.shard_id.0 as int;
        assert(chunk_in_shard(before.nodes(), roots, chunk));
        if chunk.old_root != new_roots[s] {
            let i = choose|i: int|
                0 <= i < entries.len() && (#[trigger] entries[i]).range == chunk.range;
            assert(delta[i] == delta_edit(entries[i]));
            assert(delta[i].range.contains(block));
        }
        assert(new_roots[s] == roots[s]);
        let blocks = before.metadata.blocks_of(device_id);
        lemma_shard_unique(before.nodes(), roots, blocks, s, block);
        assert(after.nodes()[new_roots[s].0].covered_range
            == before.nodes()[roots[s].0].covered_range);
        lemma_shard_unique(after.nodes(), new_roots, blocks, s, block);
        assert(before.nodes().contains_key(roots[s].0));
        law_trees_are_immutable(
            before.nodes(),
            after.nodes(),
            before.block_size(),
            roots[s].0,
        );
    }
}

} // verus!
