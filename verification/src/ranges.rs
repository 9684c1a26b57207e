//! Arithmetic on ranges of bytes and blocks.
use vstd::prelude::*;

use crate::block_api::{BlockRange, ByteRange, DeviceSpec};
use crate::error::StorageError;
use crate::id::{BlockCount, BlockIndex};
use crate::metadata_records::LeafEntry;

verus! {

impl ByteRange {
    /// One past the last byte.
    pub open spec fn end(self) -> int {
        self.offset + self.len
    }

    pub open spec fn contains(self, byte: int) -> bool {
        self.offset <= byte < self.end()
    }

    /// Whether the range lies on a device and starts and ends on its blocks.
    pub open spec fn fits_device(self, spec: DeviceSpec) -> bool {
        &&& spec.block_size > 0
        &&& self.offset % spec.block_size as u64 == 0
        &&& self.len % spec.block_size as u64 == 0
        &&& self.end() <= u64::MAX
        &&& self.end() <= spec.logical_blocks * spec.block_size
    }

    pub fn new(offset: u64, len: u64) -> (range: ByteRange)
        ensures
            range == (ByteRange { offset, len }),
    {
        ByteRange { offset, len }
    }

    pub fn end_exclusive(self) -> (result: Result<u64, StorageError>)
        ensures
            result is Ok <==> self.end() <= u64::MAX,
            result matches Ok(end) ==> end == self.end(),
            result matches Err(error) ==> error is InvalidArgument,
    {
        match self.offset.checked_add(self.len) {
            Some(end) => Ok(end),
            None => Err(StorageError::invalid_argument("byte range end overflows")),
        }
    }

    /// Accepts exactly the block-aligned ranges inside the device.
    pub fn validate_for_device(self, spec: &DeviceSpec) -> (result: Result<(), StorageError>)
        ensures
            result is Ok <==> self.fits_device(*spec),
            result matches Err(error) ==> error is InvalidArgument,
    {
        let block_size: u64 = spec.block_size as u64;
        if block_size == 0 {
            return Err(StorageError::invalid_argument("device block size must be nonzero"));
        }
        if self.offset % block_size != 0 || self.len % block_size != 0 {
            return Err(StorageError::invalid_argument("byte range is not block aligned"));
        }
        let end: u64 = match self.end_exclusive() {
            Ok(end) => end,
            Err(error) => return Err(error),
        };
        assert(spec.logical_blocks * spec.block_size <= u64::MAX * u32::MAX) by (nonlinear_arith)
            requires
                spec.logical_blocks <= u64::MAX,
                spec.block_size <= u32::MAX,
        ;
        let capacity: u128 = (spec.logical_blocks as u128) * (spec.block_size as u128);
        if end as u128 > capacity {
            return Err(StorageError::invalid_argument("byte range is outside the device"));
        }
        Ok(())
    }
}

impl BlockRange {
    /// One past the last block.
    pub open spec fn end(self) -> int {
        self.start.0 + self.blocks.0
    }

    pub open spec fn contains(self, block: int) -> bool {
        self.start.0 <= block < self.end()
    }

    pub fn new(start: BlockIndex, blocks: BlockCount) -> (range: BlockRange)
        ensures
            range == (BlockRange { start, blocks }),
    {
        BlockRange { start, blocks }
    }

    pub fn end_exclusive(self) -> (result: Result<BlockIndex, StorageError>)
        ensures
            result is Ok <==> self.end() <= u64::MAX,
            result matches Ok(end) ==> end.0 == self.end(),
            result matches Err(error) ==> error is InvalidArgument,
    {
        match self.start.0.checked_add(self.blocks.0) {
            Some(end) => Ok(BlockIndex(end)),
            None => Err(StorageError::invalid_argument("block range end overflows")),
        }
    }

    /// The blocks that lie in both ranges, if any do.
    pub fn intersection(self, other: BlockRange) -> (result: Result<
        Option<BlockRange>,
        StorageError,
    >)
        ensures
            result is Ok <==> self.end() <= u64::MAX && other.end() <= u64::MAX,
            result matches Ok(Some(overlap)) ==> overlap.blocks.0 > 0 && overlap.end() <= u64::MAX,
            result matches Ok(Some(overlap)) ==> forall|block: int|
                overlap.contains(block) <==> self.contains(block) && other.contains(block),
            result matches Ok(None) ==> forall|block: int|
                !(self.contains(block) && other.contains(block)),
            result matches Err(error) ==> error is InvalidArgument,
    {
        let end: u64 = match self.end_exclusive() {
            Ok(end) => end.0,
            Err(error) => return Err(error),
        };
        let other_end: u64 = match other.end_exclusive() {
            Ok(end) => end.0,
            Err(error) => return Err(error),
        };
        let start: u64 = if self.start.0 >= other.start.0 {
            self.start.0
        } else {
            other.start.0
        };
        let stop: u64 = if end <= other_end {
            end
        } else {
            other_end
        };
        if start < stop {
            Ok(Some(BlockRange { start: BlockIndex(start), blocks: BlockCount(stop - start) }))
        } else {
            Ok(None)
        }
    }

    /// Whether `inner` lies inside this range.
    pub fn contains_range(self, inner: BlockRange) -> (result: Result<bool, StorageError>)
        ensures
            result is Ok <==> self.end() <= u64::MAX && inner.end() <= u64::MAX,
            result matches Ok(inside) ==> inside == (self.start.0 <= inner.start.0 && inner.end()
                <= self.end()),
            result matches Err(error) ==> error is InvalidArgument,
    {
        let end: u64 = match self.end_exclusive() {
            Ok(end) => end.0,
            Err(error) => return Err(error),
        };
        let inner_end: u64 = match inner.end_exclusive() {
            Ok(end) => end.0,
            Err(error) => return Err(error),
        };
        Ok(self.start.0 <= inner.start.0 && inner_end <= end)
    }
}

impl LeafEntry {
    pub open spec fn range(self) -> BlockRange {
        BlockRange { start: self.logical_start, blocks: self.blocks }
    }

    pub fn logical_range(self) -> (range: BlockRange)
        ensures
            range == self.range(),
    {
        BlockRange { start: self.logical_start, blocks: self.blocks }
    }
}

/// The bytes that lie in both ranges, if any do.
pub fn byte_range_intersection(a: ByteRange, b: ByteRange) -> (result: Result<
    Option<ByteRange>,
    StorageError,
>)
    ensures
        result is Ok <==> a.end() <= u64::MAX && b.end() <= u64::MAX,
        result matches Ok(Some(overlap)) ==> overlap.len > 0 && overlap.end() <= u64::MAX
            && a.offset <= overlap.offset && b.offset <= overlap.offset && overlap.end() <= a.end()
            && overlap.end() <= b.end(),
        result matches Ok(Some(overlap)) ==> forall|byte: int|
            overlap.contains(byte) <==> a.contains(byte) && b.contains(byte),
        result matches Ok(None) ==> forall|byte: int| !(a.contains(byte) && b.contains(byte)),
        result matches Err(error) ==> error is InvalidArgument,
{
    let a_end: u64 = match a.end_exclusive() {
        Ok(end) => end,
        Err(error) => return Err(error),
    };
    let b_end: u64 = match b.end_exclusive() {
        Ok(end) => end,
        Err(error) => return Err(error),
    };
    let start: u64 = if a.offset >= b.offset {
        a.offset
    } else {
        b.offset
    };
    let stop: u64 = if a_end <= b_end {
        a_end
    } else {
        b_end
    };
    if start < stop {
        Ok(Some(ByteRange { offset: start, len: stop - start }))
    } else {
        Ok(None)
    }
}

/// How many blocks it takes to hold `bytes`.
pub open spec fn blocks_covering(bytes: int, block_size: int) -> int {
    (bytes + block_size - 1) / block_size
}

/// How many blocks it takes to hold `bytes`.
pub fn blocks_for_bytes(bytes: u64, block_size: u64) -> (result: Result<u64, StorageError>)
    ensures
        result is Ok <==> block_size > 0,
        result matches Ok(blocks) ==> blocks == blocks_covering(bytes as int, block_size as int),
        result matches Err(error) ==> error is InvalidArgument,
{
    if block_size == 0 {
        return Err(StorageError::invalid_argument("block size must be nonzero"));
    }
    let whole: u64 = bytes / block_size;
    proof {
        let (b, s) = (bytes as int, block_size as int);
        vstd::arithmetic::div_mod::lemma_fundamental_div_mod(b, s);
        let (q, r) = (b / s, b % s);
        if r == 0 {
            vstd::arithmetic::div_mod::lemma_fundamental_div_mod_converse(b + s - 1, s, q, s - 1);
        } else {
            assert(s * (q + 1) == s * q + s) by (nonlinear_arith);
            vstd::arithmetic::div_mod::lemma_fundamental_div_mod_converse(
                b + s - 1,
                s,
                q + 1,
                r - 1,
            );
            assert(q < b || s == 1) by (nonlinear_arith)
                requires
                    b == s * q + r,
                    0 < r < s,
                    q >= 0,
            ;
        }
    }
    if bytes % block_size == 0 {
        Ok(whole)
    } else {
        Ok(whole + 1)
    }
}

/// The blocks that are said to hold some bytes do hold them, and one less would not.
pub proof fn law_blocks_are_as_many_as_needed(bytes: int, block_size: int)
    requires
        bytes > 0,
        block_size > 0,
    ensures
        blocks_covering(bytes, block_size) * block_size >= bytes,
        (blocks_covering(bytes, block_size) - 1) * block_size < bytes,
        blocks_covering(0, block_size) == 0,
{
    let blocks = blocks_covering(bytes, block_size);
    assert(blocks * block_size >= bytes && (blocks - 1) * block_size < bytes) by (nonlinear_arith)
        requires
            blocks == (bytes + block_size - 1) / block_size,
            block_size > 0,
    ;
    assert((block_size - 1) / block_size == 0) by (nonlinear_arith)
        requires
            block_size > 0,
    ;
}

} // verus!
