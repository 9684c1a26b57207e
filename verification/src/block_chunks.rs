//! Cutting byte ranges of a device along its shards.
use vstd::prelude::*;

use crate::batch::{lemma_payload_run, payload_at, payload_wf, PayloadByte, PayloadRun};
use crate::block_api::{BlockRange, PayloadIntegrity};
use crate::device_trees::{has_shard_at, shard_at, shard_covers, shards_wf};
use crate::error::StorageError;
use crate::id::{BlockCount, BlockIndex, MetadataNodeId, ShardId};
use crate::metadata_records::MetadataNode;
use crate::tree::TreeStore;
use crate::tree_edit::{lemma_byte_in_blocks, lemma_mul_le};

verus! {

/// A part of a request that lies in one shard.
#[derive(Clone, Copy, PartialEq, Eq, Structural, Debug)]
pub struct DeviceWriteChunk {
    pub shard_id: ShardId,
    pub old_root: MetadataNodeId,
    pub range: BlockRange,
}

/// Whether a chunk lies in the shard that it names.
pub open spec fn chunk_in_shard(
    nodes: Map<u128, MetadataNode>,
    roots: Seq<MetadataNodeId>,
    chunk: DeviceWriteChunk,
) -> bool {
    &&& chunk.shard_id.0 < roots.len()
    &&& chunk.old_root == roots[chunk.shard_id.0 as int]
    &&& chunk.range.blocks.0 > 0
    &&& chunk.range.end() <= u64::MAX
    &&& nodes[chunk.old_root.0].covered_range.start.0 <= chunk.range.start.0
    &&& chunk.range.end() <= nodes[chunk.old_root.0].covered_range.end()
}

/// Whether some chunk holds a block.
pub open spec fn chunks_cover(chunks: Seq<DeviceWriteChunk>, block: int) -> bool {
    exists|i: int| 0 <= i < chunks.len() && (#[trigger] chunks[i]).range.contains(block)
}

/// Whether chunks lie in their shards and follow one another.
pub open spec fn chunks_wf(
    nodes: Map<u128, MetadataNode>,
    roots: Seq<MetadataNodeId>,
    chunks: Seq<DeviceWriteChunk>,
) -> bool {
    &&& forall|i: int|
        0 <= i < chunks.len() ==> chunk_in_shard(nodes, roots, #[trigger] chunks[i])
    &&& forall|i: int, j: int|
        0 <= i < j < chunks.len() ==> (#[trigger] chunks[i]).range.end() <= (
        #[trigger] chunks[j]).range.start.0
}

/// Cuts a range of blocks along a device's shards.
#[verifier::rlimit(40)]
pub fn split_device_range(
    store: &TreeStore,
    roots: &Vec<MetadataNodeId>,
    requested: BlockRange,
    block_size: u64,
    blocks: Ghost<int>,
) -> (result: Result<Vec<DeviceWriteChunk>, StorageError>)
    requires
        store.wf(block_size),
        shards_wf(store.nodes@, roots@, blocks@),
        roots@.len() <= u32::MAX,
        requested.blocks.0 > 0,
        requested.end() <= blocks@,
        requested.end() <= u64::MAX,
    ensures
        result matches Ok(chunks) && chunks@.len() > 0 && chunks_wf(
            store.nodes@,
            roots@,
            chunks@,
        ) && forall|block: int| #[trigger]
            chunks_cover(chunks@, block) == requested.contains(block),
{
    let ghost nodes = store.nodes@;
    let mut chunks: Vec<DeviceWriteChunk> = Vec::new();
    let mut shard: usize = 0;
    while shard < roots.len()
        invariant
            shard <= roots@.len(),
            roots@.len() <= u32::MAX,
            store.wf(block_size),
            nodes == store.nodes@,
            shards_wf(nodes, roots@, blocks@),
            requested.end() <= u64::MAX,
            chunks_wf(nodes, roots@, chunks@),
            forall|i: int|
                0 <= i < chunks@.len() ==> (#[trigger] chunks@[i]).shard_id.0 < shard,
            forall|block: int| #[trigger]
                chunks_cover(chunks@, block) ==> requested.contains(block),
            forall|block: int, s: int|
                0 <= s < shard && #[trigger] shard_covers(nodes, roots@, s, block)
                    && requested.contains(block) ==> chunks_cover(chunks@, block),
        decreases roots@.len() - shard,
    {
        let root = roots[shard];
        assert(nodes.contains_key(root.0));
        assert(crate::tree::node_wf(nodes, root.0, block_size));
        let covered = match store.nodes.get(root.raw()) {
            Some(node) => node.covered_range,
            None => return Err(StorageError::not_found("metadata_node", root.raw())),
        };
        proof {
            assert(covered.end() <= u64::MAX) by (nonlinear_arith)
                requires
                    covered.end() * block_size <= u64::MAX,
                    block_size >= 1,
                    covered.end() >= 0,
            ;
        }
        let ghost before = chunks@;
        match covered.intersection(requested) {
            Ok(Some(overlap)) => {
                let chunk = DeviceWriteChunk {
                    shard_id: ShardId(shard as u32),
                    old_root: root,
                    range: overlap,
                };
                chunks.push(chunk);
                proof {
                    assert(overlap.contains(overlap.start.0 as int));
                    assert(overlap.contains(overlap.end() - 1));
                    assert(covered.contains(overlap.start.0 as int));
                    assert(covered.contains(overlap.end() - 1));
                    assert(chunk_in_shard(nodes, roots@, chunk));
                    assert(chunks@[before.len() as int] == chunk);
                    assert forall|i: int, j: int| 0 <= i < j < chunks@.len() implies (
                    #[trigger] chunks@[i]).range.end() <= (#[trigger] chunks@[j]).range.start.0 by {
                        if j == before.len() {
                            let s = before[i].shard_id.0 as int;
                            assert(chunk_in_shard(nodes, roots@, before[i]));
                            assert(nodes[roots@[s].0].covered_range.end()
                                <= nodes[roots@[shard as int].0].covered_range.start.0);
                        } else {
                            assert(chunks@[i] == before[i] && chunks@[j] == before[j]);
                        }
                    }
                    assert forall|block: int| #[trigger]
                        chunks_cover(chunks@, block) implies requested.contains(block) by {
                        let i = choose|i: int|
                            0 <= i < chunks@.len() && (#[trigger] chunks@[i]).range.contains(block);
                        if i < before.len() {
                            assert(before[i].range.contains(block));
                            assert(chunks_cover(before, block));
                        }
                    }
                }
            },
            Ok(None) => {},
            Err(error) => return Err(error),
        }
        proof {
            assert forall|block: int, s: int|
                0 <= s < shard + 1 && #[trigger] shard_covers(nodes, roots@, s, block)
                    && requested.contains(block) implies chunks_cover(chunks@, block) by {
                if s < shard {
                    assert(chunks_cover(before, block));
                    let i = choose|i: int|
                        0 <= i < before.len() && (#[trigger] before[i]).range.contains(block);
                    assert(chunks@[i].range.contains(block));
                } else {
                    assert(covered.contains(block));
                    assert(chunks@[before.len() as int].range.contains(block));
                }
            }
        }
        shard = shard + 1;
    }
    proof {
        assert forall|block: int| #[trigger]
            chunks_cover(chunks@, block) == requested.contains(block) by {
            if requested.contains(block) {
                assert(has_shard_at(nodes, roots@, block));
                let s = shard_at(nodes, roots@, block);
                assert(shard_covers(nodes, roots@, s, block));
            }
        }
        assert(chunks_cover(chunks@, requested.start.0 as int));
    }
    if chunks.len() == 0 {
        return Err(StorageError::corrupt("device range did not overlap any shard roots"));
    }
    Ok(chunks)
}

/// The shard that holds a whole range of blocks.
pub fn single_shard_for_block_range(
    store: &TreeStore,
    roots: &Vec<MetadataNodeId>,
    range: BlockRange,
    block_size: u64,
    blocks: Ghost<int>,
) -> (result: Result<(ShardId, MetadataNodeId), StorageError>)
    requires
        store.wf(block_size),
        shards_wf(store.nodes@, roots@, blocks@),
        roots@.len() <= u32::MAX,
    ensures
        result matches Ok((shard_id, root)) ==> shard_id.0 < roots@.len() && root
            == roots@[shard_id.0 as int] && store.nodes@[root.0].covered_range.start.0
            <= range.start.0 && range.end() <= store.nodes@[root.0].covered_range.end(),
        result is Err ==> range.end() > u64::MAX || forall|s: int|
            0 <= s < roots@.len() ==> !(store.nodes@[(
            #[trigger] roots@[s]).0].covered_range.start.0 <= range.start.0 && range.end()
                <= store.nodes@[roots@[s].0].covered_range.end()),
        result matches Err(error) ==> error is InvalidArgument,
{
    let ghost nodes = store.nodes@;
    let mut shard: usize = 0;
    while shard < roots.len()
        invariant
            shard <= roots@.len(),
            roots@.len() <= u32::MAX,
            store.wf(block_size),
            nodes == store.nodes@,
            shards_wf(nodes, roots@, blocks@),
            forall|s: int|
                0 <= s < shard ==> !(nodes[(#[trigger] roots@[s]).0].covered_range.start.0
                    <= range.start.0 && range.end() <= nodes[roots@[s].0].covered_range.end()),
        decreases roots@.len() - shard,
    {
        let root = roots[shard];
        assert(nodes.contains_key(root.0));
        assert(crate::tree::node_wf(nodes, root.0, block_size));
        if let Some(node) = store.nodes.get(root.raw()) {
            let covered = node.covered_range;
            proof {
                assert(covered.end() <= u64::MAX) by (nonlinear_arith)
                    requires
                        covered.end() * block_size <= u64::MAX,
                        block_size >= 1,
                        covered.end() >= 0,
                ;
            }
            match covered.contains_range(range) {
                Ok(inside) => {
                    if inside {
                        return Ok((ShardId(shard as u32), root));
                    }
                },
                Err(error) => return Err(error),
            }
        }
        shard = shard + 1;
    }
    Err(StorageError::invalid_argument("block range is not contained by one shard"))
}

/// A chunk of a batch with its bytes.
pub struct BlockBatchChunk {
    pub chunk: DeviceWriteChunk,
    pub bytes: Vec<u8>,
    pub payload_integrity: PayloadIntegrity,
}

impl BlockBatchChunk {
    /// Where a byte of the device lies in the chunk's bytes.
    pub open spec fn place_of(self, block_size: u64, byte: int) -> int {
        byte - self.chunk.range.start.0 * block_size
    }
}

/// Whether the chunks hold exactly the bytes of the collapsed runs, block by
/// block.
pub open spec fn batch_chunks_wf(
    nodes: Map<u128, MetadataNode>,
    roots: Seq<MetadataNodeId>,
    chunks: Seq<BlockBatchChunk>,
    runs: Seq<PayloadRun>,
    block_size: u64,
) -> bool {
    &&& forall|i: int|
        0 <= i < chunks.len() ==> chunk_in_shard(nodes, roots, (#[trigger] chunks[i]).chunk)
            && chunks[i].bytes@.len() == chunks[i].chunk.range.blocks.0 * block_size
    &&& forall|i: int, j: int|
        0 <= i < j < chunks.len() ==> (#[trigger] chunks[i]).chunk.range.end() <= (
        #[trigger] chunks[j]).chunk.range.start.0
    &&& forall|i: int, byte: int|
        0 <= i < chunks.len() && (#[trigger] chunks[i]).chunk.range.contains(
            byte / block_size as int,
        ) ==> #[trigger] payload_at(runs, byte) == Some(
            PayloadByte {
                value: chunks[i].bytes@[chunks[i].place_of(block_size, byte)],
                payload_integrity: chunks[i].payload_integrity,
            },
        )
    &&& forall|byte: int|
        byte >= 0 && #[trigger] payload_at(runs, byte) is Some ==> batch_covers(
            chunks,
            byte / block_size as int,
        )
}

pub open spec fn batch_covers(chunks: Seq<BlockBatchChunk>, block: int) -> bool {
    exists|i: int| 0 <= i < chunks.len() && (#[trigger] chunks[i]).chunk.range.contains(block)
}

/// A byte of the payload lies in one of its runs.
pub proof fn lemma_payload_has_run(runs: Seq<PayloadRun>, place: int)
    requires
        payload_at(runs, place) is Some,
    ensures
        exists|i: int| 0 <= i < runs.len() && (#[trigger] runs[i]).contains(place),
    decreases runs.len(),
{
    if runs.last().contains(place) {
        assert(runs[runs.len() - 1].contains(place));
    } else {
        lemma_payload_has_run(runs.drop_last(), place);
        let i = choose|i: int|
            0 <= i < runs.drop_last().len() && (#[trigger] runs.drop_last()[i]).contains(place);
        assert(runs[i].contains(place));
    }
}

/// Adds a run's chunks with their bytes.
fn push_run_chunks(
    run: &PayloadRun,
    pieces: &Vec<DeviceWriteChunk>,
    block_size: u64,
    out: &mut Vec<BlockBatchChunk>,
) -> (result: Result<(), StorageError>)
    requires
        block_size > 0,
        run.end() <= u64::MAX,
        forall|k: int|
            0 <= k < pieces@.len() ==> run.offset <= (#[trigger] pieces@[k]).range.start.0
                * block_size && pieces@[k].range.end() * block_size <= run.end(),
    ensures
        result is Ok,
        final(out)@.len() == old(out)@.len() + pieces@.len(),
        forall|i: int| 0 <= i < old(out)@.len() ==> #[trigger] final(out)@[i] == old(out)@[i],
        forall|i: int|
            old(out)@.len() <= i < final(out)@.len() ==> chunk_of_run(
                *run,
                pieces@[i - old(out)@.len()],
                block_size,
                #[trigger] final(out)@[i],
            ),
{
    let mut k: usize = 0;
    let ghost count = out@.len();
    while k < pieces.len()
        invariant
            k <= pieces@.len(),
            block_size > 0,
            run.end() <= u64::MAX,
            count == old(out)@.len(),
            forall|k: int|
                0 <= k < pieces@.len() ==> run.offset <= (#[trigger] pieces@[k]).range.start.0
                    * block_size && pieces@[k].range.end() * block_size <= run.end(),
            out@.len() == count + k,
            forall|i: int| 0 <= i < count ==> #[trigger] out@[i] == old(out)@[i],
            forall|i: int|
                count <= i < out@.len() ==> chunk_of_run(
                    *run,
                    pieces@[i - count],
                    block_size,
                    #[trigger] out@[i],
                ),
        decreases pieces@.len() - k,
    {
        let piece = pieces[k];
        let ghost before = out@;
        proof {
            lemma_byte_in_blocks(piece.range, block_size, 0);
            assert(run.bytes@.len() <= usize::MAX) by {
                assert(run.bytes.len() == run.bytes@.len());
            }
        }
        let first: u64 = piece.range.start.0 * block_size - run.offset;
        assert(piece.range.blocks.0 * block_size >= 0) by (nonlinear_arith);
        let len: u64 = piece.range.blocks.0 * block_size;
        let start: usize = first as usize;
        let end: usize = start + len as usize;
        let bytes = vstd::slice::slice_to_vec(
            vstd::slice::slice_subrange(run.bytes.as_slice(), start, end),
        );
        out.push(
            BlockBatchChunk { chunk: piece, bytes, payload_integrity: run.payload_integrity },
        );
        proof {
            assert(chunk_of_run(*run, piece, block_size, out@[count + k]));
            assert forall|i: int| count <= i < out@.len() implies chunk_of_run(
                *run,
                pieces@[i - count],
                block_size,
                #[trigger] out@[i],
            ) by {
                if i < before.len() {
                    assert(out@[i] == before[i]);
                }
            }
        }
        k = k + 1;
    }
    Ok(())
}

/// Whether a chunk holds a run's bytes for its range.
spec fn chunk_of_run(
    run: PayloadRun,
    piece: DeviceWriteChunk,
    block_size: u64,
    chunk: BlockBatchChunk,
) -> bool {
    &&& chunk.chunk == piece
    &&& chunk.payload_integrity == run.payload_integrity
    &&& chunk.bytes@.len() == piece.range.blocks.0 * block_size
    &&& chunk.bytes@ == run.bytes@.subrange(
        piece.range.start.0 * block_size - run.offset,
        piece.range.end() * block_size - run.offset,
    )
}

/// Cuts a collapsed batch along the device's shards, with the bytes of each
/// chunk.
#[verifier::rlimit(60)]
pub fn chunk_block_batch(
    store: &TreeStore,
    roots: &Vec<MetadataNodeId>,
    runs: &Vec<PayloadRun>,
    block_size: u64,
    blocks: Ghost<int>,
) -> (result: Result<Vec<BlockBatchChunk>, StorageError>)
    requires
        store.wf(block_size),
        shards_wf(store.nodes@, roots@, blocks@),
        roots@.len() <= u32::MAX,
        payload_wf(runs@, block_size),
        forall|i: int| 0 <= i < runs@.len() ==> (#[trigger] runs@[i]).end() <= blocks@ * block_size,
    ensures
        result matches Ok(chunks) && batch_chunks_wf(
            store.nodes@,
            roots@,
            chunks@,
            runs@,
            block_size,
        ) && (runs@.len() > 0 ==> chunks@.len() > 0),
{
    let ghost nodes = store.nodes@;
    let mut chunks: Vec<BlockBatchChunk> = Vec::new();
    let mut i: usize = 0;
    while i < runs.len()
        invariant
            i <= runs@.len(),
            nodes == store.nodes@,
            store.wf(block_size),
            shards_wf(nodes, roots@, blocks@),
            roots@.len() <= u32::MAX,
            payload_wf(runs@, block_size),
            forall|i: int| 0 <= i < runs@.len() ==> (#[trigger] runs@[i]).end() <= blocks@ * block_size,
            i > 0 ==> chunks@.len() > 0,
            chunks_from_runs(nodes, roots@, chunks@, runs@, i as int, block_size),
        decreases runs@.len() - i,
    {
        let run = &runs[i];
        let ghost b = block_size as int;
        let first: u64 = run.offset / block_size;
        let count: u64 = (run.bytes.len() as u64) / block_size;
        let requested = BlockRange { start: BlockIndex(first), blocks: BlockCount(count) };
        proof {
            lemma_run_blocks(*run, block_size, requested);
            assert(runs@[i as int].end() <= blocks@ * block_size);
            assert(requested.end() <= blocks@) by (nonlinear_arith)
                requires
                    requested.end() * block_size == run.end(),
                    run.end() <= blocks@ * block_size,
                    block_size > 0,
            ;
            assert(requested.end() <= u64::MAX) by (nonlinear_arith)
                requires
                    requested.end() * block_size == run.end(),
                    run.end() <= u64::MAX,
                    block_size > 0,
                    requested.end() >= 0,
            ;
        }
        let pieces = match split_device_range(store, roots, requested, block_size, blocks) {
            Ok(pieces) => pieces,
            Err(error) => return Err(error),
        };
        let ghost before = chunks@;
        proof {
            assert forall|k: int| 0 <= k < pieces@.len() implies run.offset <= (
            #[trigger] pieces@[k]).range.start.0 * block_size && pieces@[k].range.end()
                * block_size <= run.end() by {
                lemma_piece_inside(nodes, roots@, pieces@, requested, k);
                lemma_mul_le(requested.start.0 as int, pieces@[k].range.start.0 as int, b);
                lemma_mul_le(pieces@[k].range.end(), requested.end(), b);
            }
        }
        match push_run_chunks(run, &pieces, block_size, &mut chunks) {
            Ok(()) => {},
            Err(error) => return Err(error),
        }
        proof {
            lemma_chunks_extend(
                nodes,
                roots@,
                before,
                pieces@,
                chunks@,
                runs@,
                i as int,
                requested,
                block_size,
            );
        }
        i = i + 1;
    }
    proof {
        assert forall|byte: int|
            byte >= 0 && #[trigger] payload_at(runs@, byte) is Some implies batch_covers(
            chunks@,
            byte / block_size as int,
        ) by {
            lemma_payload_has_run(runs@, byte);
            let k = choose|k: int| 0 <= k < runs@.len() && (#[trigger] runs@[k]).contains(byte);
            assert(run_contains(runs@, k, byte));
        }
    }
    Ok(chunks)
}

spec fn run_contains(runs: Seq<PayloadRun>, k: int, byte: int) -> bool {
    runs[k].contains(byte)
}

/// Whether the chunks hold the first `count` runs.
spec fn chunks_from_runs(
    nodes: Map<u128, MetadataNode>,
    roots: Seq<MetadataNodeId>,
    chunks: Seq<BlockBatchChunk>,
    runs: Seq<PayloadRun>,
    count: int,
    block_size: u64,
) -> bool {
    &&& forall|i: int|
        0 <= i < chunks.len() ==> chunk_in_shard(nodes, roots, (#[trigger] chunks[i]).chunk)
            && chunks[i].bytes@.len() == chunks[i].chunk.range.blocks.0 * block_size
    &&& forall|i: int, j: int|
        0 <= i < j < chunks.len() ==> (#[trigger] chunks[i]).chunk.range.end() <= (
        #[trigger] chunks[j]).chunk.range.start.0
    &&& forall|i: int|
        0 <= i < chunks.len() ==> exists|k: int|
            0 <= k < count && (#[trigger] chunks[i]).chunk.range.end() * block_size <= (
            #[trigger] runs[k]).end()
    &&& forall|i: int, byte: int|
        0 <= i < chunks.len() && (#[trigger] chunks[i]).chunk.range.contains(
            byte / block_size as int,
        ) ==> #[trigger] payload_at(runs, byte) == Some(
            PayloadByte {
                value: chunks[i].bytes@[chunks[i].place_of(block_size, byte)],
                payload_integrity: chunks[i].payload_integrity,
            },
        )
    &&& forall|k: int, byte: int|
        0 <= k < count && #[trigger] run_contains(runs, k, byte) ==> batch_covers(
            chunks,
            byte / block_size as int,
        )
}

proof fn lemma_run_blocks(run: PayloadRun, block_size: u64, requested: BlockRange)
    requires
        block_size > 0,
        run.bytes@.len() > 0,
        run.bytes@.len() <= u64::MAX,
        crate::batch::on_unit(run.offset as int, block_size),
        crate::batch::on_unit(run.end(), block_size),
        requested.start.0 == run.offset / block_size,
        requested.blocks.0 == run.bytes@.len() as u64 / block_size,
    ensures
        requested.start.0 * block_size == run.offset,
        requested.end() * block_size == run.end(),
        requested.blocks.0 > 0,
{
    let b = block_size as int;
    let len = run.bytes@.len() as int;
    vstd::arithmetic::div_mod::lemma_fundamental_div_mod(run.offset as int, b);
    vstd::arithmetic::div_mod::lemma_fundamental_div_mod(run.end(), b);
    let q = run.end() / b - run.offset as int / b;
    assert(len == b * q) by (nonlinear_arith)
        requires
            run.end() == b * (run.end() / b),
            run.offset == b * (run.offset as int / b),
            len == run.end() - run.offset,
            q == run.end() / b - run.offset as int / b,
    ;
    vstd::arithmetic::div_mod::lemma_fundamental_div_mod(len, b);
    vstd::arithmetic::div_mod::lemma_fundamental_div_mod_converse(len, b, q, 0);
    assert(requested.blocks.0 == q);
    assert(q > 0) by (nonlinear_arith)
        requires
            len == b * q,
            len > 0,
            b > 0,
    ;
    assert(requested.end() * b == run.end()) by (nonlinear_arith)
        requires
            requested.end() == requested.start.0 + q,
            requested.start.0 == run.offset as int / b,
            run.offset == b * (run.offset as int / b),
            len == b * q,
            run.end() == run.offset + len,
    ;
    assert(requested.start.0 * b == run.offset) by (nonlinear_arith)
        requires
            requested.start.0 == run.offset as int / b,
            run.offset == b * (run.offset as int / b),
    ;
}

proof fn lemma_piece_inside(
    nodes: Map<u128, MetadataNode>,
    roots: Seq<MetadataNodeId>,
    pieces: Seq<DeviceWriteChunk>,
    requested: BlockRange,
    k: int,
)
    requires
        chunks_wf(nodes, roots, pieces),
        forall|block: int| #[trigger] chunks_cover(pieces, block) == requested.contains(block),
        0 <= k < pieces.len(),
    ensures
        requested.start.0 <= pieces[k].range.start.0,
        pieces[k].range.end() <= requested.end(),
{
    assert(chunk_in_shard(nodes, roots, pieces[k]));
    assert(pieces[k].range.contains(pieces[k].range.start.0 as int));
    assert(chunks_cover(pieces, pieces[k].range.start.0 as int));
    assert(pieces[k].range.contains(pieces[k].range.end() - 1));
    assert(chunks_cover(pieces, pieces[k].range.end() - 1));
}

#[verifier::rlimit(60)]
proof fn lemma_chunks_extend(
    nodes: Map<u128, MetadataNode>,
    roots: Seq<MetadataNodeId>,
    before: Seq<BlockBatchChunk>,
    pieces: Seq<DeviceWriteChunk>,
    chunks: Seq<BlockBatchChunk>,
    runs: Seq<PayloadRun>,
    at: int,
    requested: BlockRange,
    block_size: u64,
)
    requires
        block_size > 0,
        payload_wf(runs, block_size),
        0 <= at < runs.len(),
        chunks_from_runs(nodes, roots, before, runs, at, block_size),
        chunks_wf(nodes, roots, pieces),
        forall|block: int| #[trigger] chunks_cover(pieces, block) == requested.contains(block),
        requested.start.0 * block_size == runs[at].offset,
        requested.end() * block_size == runs[at].end(),
        chunks.len() == before.len() + pieces.len(),
        forall|i: int| 0 <= i < before.len() ==> #[trigger] chunks[i] == before[i],
        forall|i: int|
            before.len() <= i < chunks.len() ==> chunk_of_run(
                runs[at],
                pieces[i - before.len()],
                block_size,
                #[trigger] chunks[i],
            ),
    ensures
        chunks_from_runs(nodes, roots, chunks, runs, at + 1, block_size),
{
    let b = block_size as int;
    let run = runs[at];
    let n = before.len() as int;
    assert forall|i: int| 0 <= i < chunks.len() implies chunk_in_shard(
        nodes,
        roots,
        (#[trigger] chunks[i]).chunk,
    ) && chunks[i].bytes@.len() == chunks[i].chunk.range.blocks.0 * block_size by {
        if i < n {
            assert(chunks[i] == before[i]);
        } else {
            assert(chunk_of_run(run, pieces[i - n], block_size, chunks[i]));
            assert(chunk_in_shard(nodes, roots, pieces[i - n]));
        }
    }
    assert forall|i: int| n <= i < chunks.len() implies run.offset <= (
    #[trigger] chunks[i]).chunk.range.start.0 * b && chunks[i].chunk.range.end() * b
        <= run.end() by {
        assert(chunk_of_run(run, pieces[i - n], block_size, chunks[i]));
        lemma_piece_inside(nodes, roots, pieces, requested, i - n);
        lemma_mul_le(requested.start.0 as int, pieces[i - n].range.start.0 as int, b);
        lemma_mul_le(pieces[i - n].range.end(), requested.end(), b);
    }
    assert forall|i: int, j: int| 0 <= i < j < chunks.len() implies (
    #[trigger] chunks[i]).chunk.range.end() <= (#[trigger] chunks[j]).chunk.range.start.0 by {
        if j < n {
            assert(chunks[i] == before[i] && chunks[j] == before[j]);
        } else if i >= n {
            assert(chunk_of_run(run, pieces[i - n], block_size, chunks[i]));
            assert(chunk_of_run(run, pieces[j - n], block_size, chunks[j]));
            assert(pieces[i - n].range.end() <= pieces[j - n].range.start.0);
        } else {
            assert(chunks[i] == before[i]);
            let k = choose|k: int|
                0 <= k < at && before[i].chunk.range.end() * block_size <= (
                #[trigger] runs[k]).end();
            assert(runs[k].end() <= runs[at].offset);
            let e = chunks[i].chunk.range.end();
            let s = chunks[j].chunk.range.start.0 as int;
            assert(e <= s) by (nonlinear_arith)
                requires
                    e * b <= s * b,
                    b > 0,
            ;
        }
    }
    assert forall|i: int| 0 <= i < chunks.len() implies exists|k: int|
        0 <= k < at + 1 && (#[trigger] chunks[i]).chunk.range.end() * block_size <= (
        #[trigger] runs[k]).end() by {
        if i < n {
            assert(chunks[i] == before[i]);
            let k = choose|k: int|
                0 <= k < at && before[i].chunk.range.end() * block_size <= (
                #[trigger] runs[k]).end();
            assert(chunks[i].chunk.range.end() * block_size <= runs[k].end());
        } else {
            assert(chunks[i].chunk.range.end() * block_size <= runs[at].end());
        }
    }
    assert forall|i: int, byte: int|
        0 <= i < chunks.len() && (#[trigger] chunks[i]).chunk.range.contains(
            byte / block_size as int,
        ) implies #[trigger] payload_at(runs, byte) == Some(
        PayloadByte {
            value: chunks[i].bytes@[chunks[i].place_of(block_size, byte)],
            payload_integrity: chunks[i].payload_integrity,
        },
    ) by {
        if i < n {
            assert(chunks[i] == before[i]);
        } else {
            let piece = pieces[i - n];
            assert(chunk_of_run(run, piece, block_size, chunks[i]));
            assert(byte >= 0) by {
                if byte < 0 {
                    assert(byte / b < 0) by (nonlinear_arith)
                        requires
                            byte < 0,
                            b > 0,
                    ;
                }
            }
            lemma_byte_in_blocks(piece.range, block_size, byte);
            assert(run.contains(byte));
            lemma_payload_run(runs, block_size, at, byte);
        }
    }
    assert forall|k: int, byte: int|
        0 <= k < at + 1 && #[trigger] run_contains(runs, k, byte) implies batch_covers(
        chunks,
        byte / block_size as int,
    ) by {
        if k < at {
            assert(batch_covers(before, byte / b));
            let i = choose|i: int|
                0 <= i < before.len() && (#[trigger] before[i]).chunk.range.contains(byte / b);
            assert(chunks[i].chunk.range.contains(byte / b));
        } else {
            lemma_byte_in_blocks(requested, block_size, byte);
            assert(chunks_cover(pieces, byte / b));
            let i = choose|i: int|
                0 <= i < pieces.len() && (#[trigger] pieces[i]).range.contains(byte / b);
            assert(chunk_of_run(run, pieces[i], block_size, chunks[n + i]));
            assert(chunks[n + i].chunk.range.contains(byte / b));
        }
    }
}

} // verus!
