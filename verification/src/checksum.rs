//! The CRC-32C checksum of payload bytes.
use vstd::prelude::*;

verus! {

/// The reflected Castagnoli polynomial.
pub const CRC32C_POLYNOMIAL: u32 = 0x82F6_3B78;

/// One bit of the remainder moved out.
pub open spec fn crc_bit(crc: u32) -> u32 {
    if crc & 1 == 1 {
        (crc >> 1) ^ CRC32C_POLYNOMIAL
    } else {
        crc >> 1
    }
}

pub open spec fn crc_bits(crc: u32, bits: nat) -> u32
    decreases bits,
{
    if bits == 0 {
        crc
    } else {
        crc_bit(crc_bits(crc, (bits - 1) as nat))
    }
}

/// The remainder after `bytes`, started from `crc`.
pub open spec fn crc_bytes(crc: u32, bytes: Seq<u8>) -> u32
    decreases bytes.len(),
{
    if bytes.len() == 0 {
        crc
    } else {
        crc_bits(crc_bytes(crc, bytes.drop_last()) ^ (bytes.last() as u32), 8)
    }
}

/// The checksum of `bytes`.
pub open spec fn checksum(bytes: Seq<u8>) -> u64 {
    (crc_bytes(0xFFFF_FFFF, bytes) ^ 0xFFFF_FFFFu32) as u64
}

/// The bytes of all chunks in order.
pub open spec fn concat_chunks(chunks: Seq<&[u8]>) -> Seq<u8>
    decreases chunks.len(),
{
    if chunks.len() == 0 {
        seq![]
    } else {
        concat_chunks(chunks.drop_last()) + chunks.last()@
    }
}

pub proof fn lemma_crc_bytes_concat(crc: u32, a: Seq<u8>, b: Seq<u8>)
    ensures
        crc_bytes(crc, a + b) == crc_bytes(crc_bytes(crc, a), b),
    decreases b.len(),
{
    if b.len() == 0 {
        assert(a + b =~= a);
    } else {
        assert((a + b).drop_last() =~= a + b.drop_last());
        lemma_crc_bytes_concat(crc, a, b.drop_last());
    }
}

fn crc_update(crc: u32, bytes: &[u8]) -> (updated: u32)
    ensures
        updated == crc_bytes(crc, bytes@),
{
    let mut current: u32 = crc;
    let mut i: usize = 0;
    assert(bytes@.take(0) =~= Seq::<u8>::empty());
    while i < bytes.len()
        invariant
            i <= bytes@.len(),
            current == crc_bytes(crc, bytes@.take(i as int)),
        decreases bytes@.len() - i,
    {
        let ghost before = current;
        let mut value: u32 = current ^ (bytes[i] as u32);
        let ghost mixed = value;
        let mut bit: u32 = 0;
        while bit < 8
            invariant
                bit <= 8,
                value == crc_bits(mixed, bit as nat),
            decreases 8 - bit,
        {
            if value & 1 == 1 {
                value = (value >> 1) ^ CRC32C_POLYNOMIAL;
            } else {
                value = value >> 1;
            }
            bit = bit + 1;
        }
        proof {
            let longer = bytes@.take(i + 1);
            assert(longer.drop_last() =~= bytes@.take(i as int));
            assert(longer.last() == bytes@[i as int]);
        }
        current = value;
        i = i + 1;
    }
    assert(bytes@.take(bytes@.len() as int) =~= bytes@);
    current
}

/// The checksum that payload bytes are stored with.
pub fn data_log_checksum(bytes: &[u8]) -> (sum: u64)
    ensures
        sum == checksum(bytes@),
{
    (crc_update(0xFFFF_FFFF, bytes) ^ 0xFFFF_FFFFu32) as u64
}

/// The checksum of chunks that are stored one after the other.
pub fn data_log_checksum_chunks(chunks: &[&[u8]]) -> (sum: u64)
    ensures
        sum == checksum(concat_chunks(chunks@)),
{
    let mut current: u32 = 0xFFFF_FFFF;
    let mut i: usize = 0;
    assert(chunks@.take(0) =~= Seq::<&[u8]>::empty());
    while i < chunks.len()
        invariant
            i <= chunks@.len(),
            current == crc_bytes(0xFFFF_FFFF, concat_chunks(chunks@.take(i as int))),
        decreases chunks@.len() - i,
    {
        proof {
            let longer = chunks@.take(i + 1);
            assert(longer.drop_last() =~= chunks@.take(i as int));
            lemma_crc_bytes_concat(
                0xFFFF_FFFF,
                concat_chunks(chunks@.take(i as int)),
                chunks@[i as int]@,
            );
        }
        current = crc_update(current, chunks[i]);
        i = i + 1;
    }
    assert(chunks@.take(chunks@.len() as int) =~= chunks@);
    (current ^ 0xFFFF_FFFFu32) as u64
}

proof fn lemma_crc_bits_apart(a: u32, b: u32, bits: nat)
    requires
        a != b,
    ensures
        crc_bits(a, bits) != crc_bits(b, bits),
    decreases bits,
{
    if bits > 0 {
        lemma_crc_bits_apart(a, b, (bits - 1) as nat);
        let left = crc_bits(a, (bits - 1) as nat);
        let right = crc_bits(b, (bits - 1) as nat);
        assert(left != right ==> crc_bit(left) != crc_bit(right)) by (bit_vector);
    }
}

proof fn lemma_crc_bytes_apart(a: u32, b: u32, bytes: Seq<u8>)
    requires
        a != b,
    ensures
        crc_bytes(a, bytes) != crc_bytes(b, bytes),
    decreases bytes.len(),
{
    if bytes.len() > 0 {
        lemma_crc_bytes_apart(a, b, bytes.drop_last());
        let left = crc_bytes(a, bytes.drop_last());
        let right = crc_bytes(b, bytes.drop_last());
        let byte = bytes.last() as u32;
        assert(left != right ==> left ^ byte != right ^ byte) by (bit_vector);
        lemma_crc_bits_apart(left ^ byte, right ^ byte, 8);
    }
}

/// Bytes of which one has changed do not have the checksum that they had.
pub proof fn law_changed_byte_changes_checksum(bytes: Seq<u8>, at: int, byte: u8)
    requires
        0 <= at < bytes.len(),
        bytes[at] != byte,
    ensures
        checksum(bytes.update(at, byte)) != checksum(bytes),
{
    let changed = bytes.update(at, byte);
    let head = bytes.take(at);
    let tail = bytes.skip(at + 1);
    let old_byte = bytes[at];
    let start = 0xFFFF_FFFFu32;
    assert(bytes =~= head.push(old_byte) + tail);
    assert(changed =~= head.push(byte) + tail);
    lemma_crc_bytes_concat(start, head.push(old_byte), tail);
    lemma_crc_bytes_concat(start, head.push(byte), tail);
    assert(head.push(old_byte).drop_last() =~= head);
    assert(head.push(byte).drop_last() =~= head);
    let crc = crc_bytes(start, head);
    let left = old_byte as u32;
    let right = byte as u32;
    assert(left != right ==> crc ^ left != crc ^ right) by (bit_vector);
    lemma_crc_bits_apart(crc ^ left, crc ^ right, 8);
    lemma_crc_bytes_apart(
        crc_bytes(start, head.push(old_byte)),
        crc_bytes(start, head.push(byte)),
        tail,
    );
    let a = crc_bytes(start, bytes);
    let b = crc_bytes(start, changed);
    assert(a != b ==> a ^ start != b ^ start) by (bit_vector);
}

/// Chunks are taken one behind another: the bytes of two lists of chunks are those
/// of the first, then those of the second, and one chunk is its own bytes.
pub proof fn law_chunks_follow_each_other(first: Seq<&[u8]>, second: Seq<&[u8]>)
    ensures
        concat_chunks(first + second) == concat_chunks(first) + concat_chunks(second),
        first.len() == 1 ==> concat_chunks(first) == first[0]@,
    decreases second.len(),
{
    if second.len() == 0 {
        assert(first + second =~= first);
        assert(concat_chunks(first) + concat_chunks(second) =~= concat_chunks(first));
    } else {
        assert((first + second).drop_last() =~= first + second.drop_last());
        assert((first + second).last() == second.last());
        law_chunks_follow_each_other(first, second.drop_last());
        assert(concat_chunks(first + second) =~= concat_chunks(first) + concat_chunks(second));
    }
    if first.len() == 1 {
        assert(first.drop_last().len() == 0);
        assert(concat_chunks(first.drop_last()) =~= Seq::<u8>::empty());
        assert(concat_chunks(first) =~= first[0]@);
    }
}

} // verus!
