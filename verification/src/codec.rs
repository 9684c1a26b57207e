//! The durable byte format: big-endian integers, length-prefixed collections,
//! one tag byte per variant, fields in declaration order.
use vstd::prelude::*;
use vstd::utf8::{decode_utf8, encode_utf8, valid_utf8};

use crate::error::StorageError;

verus! {

/// Longest collection that is read back.
pub const MAX_DURABLE_COLLECTION_LEN: u64 = 1_000_000;

/// Longest string, in bytes, that is read back.
pub const MAX_DURABLE_STRING_LEN: u64 = 1_048_576;

/// The error of every failed read of a durable buffer.
pub fn durable_codec_error(message: &'static str) -> (error: StorageError)
    ensures
        error == (StorageError::Corrupt { message }),
{
    StorageError::corrupt(message)
}

/// `value` in `width` bytes, most significant byte first.
pub open spec fn be_bytes(value: nat, width: nat) -> Seq<u8>
    decreases width,
{
    if width == 0 {
        seq![]
    } else {
        be_bytes(value / 256, (width - 1) as nat).push((value % 256) as u8)
    }
}

/// The number that `bytes` spells, most significant byte first.
pub open spec fn be_value(bytes: Seq<u8>) -> nat
    decreases bytes.len(),
{
    if bytes.len() == 0 {
        0
    } else {
        be_value(bytes.drop_last()) * 256 + bytes.last() as nat
    }
}

/// How many values `width` bytes can tell apart.
pub open spec fn byte_span(width: nat) -> nat
    decreases width,
{
    if width == 0 {
        1
    } else {
        byte_span((width - 1) as nat) * 256
    }
}

/// Numbers are written with their high bytes first: each byte tells how often the
/// numbers that the bytes behind it can tell apart go into the number.
pub proof fn law_high_bytes_come_first(value: nat, width: nat, i: int)
    requires
        0 <= i < width,
    ensures
        be_bytes(value, width).len() == width,
        be_bytes(value, width)[i] == (value / byte_span((width - 1 - i) as nat)) % 256,
    decreases width,
{
    let rest = (width - 1) as nat;
    if rest > 0 {
        law_high_bytes_come_first(value / 256, rest, if i < rest {
            i
        } else {
            0
        });
    }
    assert(be_bytes(value / 256, rest).len() == rest);
    if i < rest {
        let span = byte_span((rest - 1 - i) as nat);
        assert(byte_span((width - 1 - i) as nat) == span * 256);
        lemma_span_positive((rest - 1 - i) as nat);
        vstd::arithmetic::div_mod::lemma_div_denominator(value as int, 256, span as int);
        assert(256 * span == span * 256) by (nonlinear_arith);
        assert((value / 256) / span == value / (span * 256));
        assert(be_bytes(value, width)[i] == be_bytes(value / 256, rest)[i]);
    } else {
        assert(byte_span(0) == 1);
        assert(value / 1 == value) by (nonlinear_arith);
        assert(be_bytes(value, width)[i] == (value % 256) as u8);
    }
}

proof fn lemma_span_positive(width: nat)
    ensures
        byte_span(width) > 0,
    decreases width,
{
    if width > 0 {
        lemma_span_positive((width - 1) as nat);
    }
}

pub proof fn lemma_byte_spans()
    ensures
        byte_span(1) == 0x100,
        byte_span(2) == 0x1_0000,
        byte_span(4) == 0x1_0000_0000,
        byte_span(8) == 0x1_0000_0000_0000_0000,
        byte_span(16) == 0x1_0000_0000_0000_0000_0000_0000_0000_0000,
{
    reveal_with_fuel(byte_span, 17);
}

proof fn lemma_byte_span_monotone(low: nat, high: nat)
    requires
        low <= high,
    ensures
        byte_span(low) <= byte_span(high),
    decreases high,
{
    if low < high {
        lemma_byte_span_monotone(low, (high - 1) as nat);
    }
}

pub proof fn lemma_be_len(value: nat, width: nat)
    ensures
        be_bytes(value, width).len() == width,
    decreases width,
{
    if width > 0 {
        lemma_be_len(value / 256, (width - 1) as nat);
    }
}

/// Writing and reading big-endian bytes undo each other.
pub proof fn lemma_be_bytes_value(value: nat, width: nat)
    requires
        value < byte_span(width),
    ensures
        be_bytes(value, width).len() == width,
        be_value(be_bytes(value, width)) == value,
    decreases width,
{
    if width > 0 {
        lemma_be_bytes_value(value / 256, (width - 1) as nat);
        assert(be_bytes(value, width).drop_last() =~= be_bytes(value / 256, (width - 1) as nat));
    }
}

pub proof fn lemma_be_value_bytes(bytes: Seq<u8>)
    ensures
        be_bytes(be_value(bytes), bytes.len()) == bytes,
        be_value(bytes) < byte_span(bytes.len()),
    decreases bytes.len(),
{
    if bytes.len() > 0 {
        lemma_be_value_bytes(bytes.drop_last());
        let value = be_value(bytes);
        assert(value / 256 == be_value(bytes.drop_last()));
        assert((value % 256) as u8 == bytes.last());
        assert(be_bytes(value, bytes.len()) =~= bytes);
    }
}

/// Bytes under construction.
#[derive(Debug)]
pub struct DurableEncoder {
    pub bytes: Vec<u8>,
}

impl View for DurableEncoder {
    type V = Seq<u8>;

    open spec fn view(&self) -> Seq<u8> {
        self.bytes@
    }
}

impl DurableEncoder {
    pub fn new() -> (encoder: DurableEncoder)
        ensures
            encoder@ == Seq::<u8>::empty(),
    {
        DurableEncoder { bytes: Vec::new() }
    }

    pub fn finish(self) -> (bytes: Vec<u8>)
        ensures
            bytes@ == self@,
    {
        self.bytes
    }

    /// Appends the low `width` bytes of `value`, most significant first.
    fn put_be(&mut self, value: u128, width: usize)
        ensures
            final(self)@ == old(self)@ + be_bytes(value as nat, width as nat),
        decreases width,
    {
        if width > 0 {
            self.put_be(value / 256, width - 1);
            self.bytes.push((value % 256) as u8);
            assert(self@ =~= old(self)@ + be_bytes(value as nat, width as nat));
        } else {
            assert(self@ =~= old(self)@ + be_bytes(value as nat, width as nat));
        }
    }

    pub fn put_u8(&mut self, value: u8)
        ensures
            final(self)@ == old(self)@ + seq![value],
    {
        self.bytes.push(value);
        assert(self@ =~= old(self)@ + seq![value]);
    }

    pub fn put_u16(&mut self, value: u16)
        ensures
            final(self)@ == old(self)@ + be_bytes(value as nat, 2),
    {
        self.put_be(value as u128, 2);
    }

    pub fn put_u32(&mut self, value: u32)
        ensures
            final(self)@ == old(self)@ + be_bytes(value as nat, 4),
    {
        self.put_be(value as u128, 4);
    }

    pub fn put_u64(&mut self, value: u64)
        ensures
            final(self)@ == old(self)@ + be_bytes(value as nat, 8),
    {
        self.put_be(value as u128, 8);
    }

    pub fn put_u128(&mut self, value: u128)
        ensures
            final(self)@ == old(self)@ + be_bytes(value as nat, 16),
    {
        self.put_be(value, 16);
    }

    /// Appends raw bytes without a length.
    pub fn put_slice(&mut self, slice: &[u8])
        ensures
            final(self)@ == old(self)@ + slice@,
    {
        self.bytes.extend_from_slice(slice);
        assert(self@ =~= old(self)@ + slice@);
    }
}

/// A read position in a durable buffer.
#[derive(Debug)]
pub struct DurableDecoder<'a> {
    pub bytes: &'a [u8],
    pub offset: usize,
}

impl<'a> DurableDecoder<'a> {
    pub open spec fn wf(&self) -> bool {
        self.offset <= self.bytes@.len()
    }

    /// The bytes not read yet.
    pub open spec fn rest(&self) -> Seq<u8> {
        self.bytes@.skip(self.offset as int)
    }

    pub fn new(bytes: &'a [u8]) -> (decoder: DurableDecoder<'a>)
        ensures
            decoder.wf(),
            decoder.bytes == bytes,
            decoder.rest() == bytes@,
    {
        let decoder = DurableDecoder { bytes, offset: 0 };
        assert(decoder.rest() =~= bytes@);
        decoder
    }

    /// Succeeds exactly when nothing is left to read.
    pub fn finish(&self) -> (result: Result<(), StorageError>)
        requires
            self.wf(),
        ensures
            result is Ok <==> self.rest().len() == 0,
            result matches Err(error) ==> error == (StorageError::Corrupt {
                message: "trailing bytes in durable buffer",
            }),
    {
        if self.offset == self.bytes.len() {
            Ok(())
        } else {
            Err(durable_codec_error("trailing bytes in durable buffer"))
        }
    }

    /// Reads the next `len` bytes.
    pub fn take(&mut self, len: usize) -> (result: Result<&'a [u8], StorageError>)
        requires
            old(self).wf(),
        ensures
            final(self).wf(),
            final(self).bytes == old(self).bytes,
            result is Ok <==> len <= old(self).rest().len(),
            result matches Ok(taken) ==> taken@ == old(self).rest().take(len as int)
                && final(self).rest() == old(self).rest().skip(len as int),
            result matches Err(error) ==> error is Corrupt && *final(self) == *old(self),
    {
        let total: usize = self.bytes.len();
        match self.offset.checked_add(len) {
            None => Err(durable_codec_error("durable buffer offset overflow")),
            Some(end) => {
                if end > total {
                    return Err(durable_codec_error("unexpected end of durable buffer"));
                }
                let out = &self.bytes[self.offset..end];
                self.offset = end;
                assert(out@ =~= old(self).rest().take(len as int));
                assert(self.rest() =~= old(self).rest().skip(len as int));
                Ok(out)
            },
        }
    }

    /// Reads `width` bytes as one number, most significant byte first.
    fn take_be(&mut self, width: usize) -> (result: Result<u128, StorageError>)
        requires
            old(self).wf(),
            width <= 16,
        ensures
            final(self).wf(),
            final(self).bytes == old(self).bytes,
            result is Ok <==> width <= old(self).rest().len(),
            result matches Ok(value) ==> value < byte_span(width as nat) && old(self).rest()
                == be_bytes(value as nat, width as nat) + final(self).rest(),
            result matches Err(error) ==> error is Corrupt,
    {
        let taken = match self.take(width) {
            Ok(taken) => taken,
            Err(error) => return Err(error),
        };
        let mut value: u128 = 0;
        let mut i: usize = 0;
        while i < width
            invariant
                i <= width <= 16,
                taken@.len() == width,
                value == be_value(taken@.take(i as int)),
            decreases width - i,
        {
            proof {
                lemma_be_value_bytes(taken@.take(i as int));
                assert(taken@.take(i + 1).drop_last() =~= taken@.take(i as int));
                lemma_be_value_bytes(taken@.take(i + 1));
                lemma_byte_span_monotone((i + 1) as nat, 16);
                lemma_byte_spans();
            }
            value = value * 256 + taken[i] as u128;
            i = i + 1;
        }
        proof {
            assert(taken@.take(width as int) =~= taken@);
            lemma_be_value_bytes(taken@);
            assert(old(self).rest() =~= taken@ + self.rest());
        }
        Ok(value)
    }

    pub fn u8(&mut self) -> (result: Result<u8, StorageError>)
        requires
            old(self).wf(),
        ensures
            final(self).wf(),
            final(self).bytes == old(self).bytes,
            result is Ok <==> old(self).rest().len() >= 1,
            result matches Ok(value) ==> old(self).rest() == seq![value] + final(self).rest(),
            result matches Err(error) ==> error is Corrupt,
    {
        let taken = match self.take(1) {
            Ok(taken) => taken,
            Err(error) => return Err(error),
        };
        assert(old(self).rest() =~= seq![taken@[0]] + self.rest());
        Ok(taken[0])
    }

    pub fn u16(&mut self) -> (result: Result<u16, StorageError>)
        requires
            old(self).wf(),
        ensures
            final(self).wf(),
            final(self).bytes == old(self).bytes,
            result is Ok <==> old(self).rest().len() >= 2,
            result matches Ok(value) ==> old(self).rest() == be_bytes(value as nat, 2) 
                + final(self).rest(),
            result matches Err(error) ==> error is Corrupt,
    {
        proof {
            lemma_byte_spans();
        }
        match self.take_be(2) {
            Ok(value) => Ok(value as u16),
            Err(error) => Err(error),
        }
    }

    pub fn u32(&mut self) -> (result: Result<u32, StorageError>)
        requires
            old(self).wf(),
        ensures
            final(self).wf(),
            final(self).bytes == old(self).bytes,
            result is Ok <==> old(self).rest().len() >= 4,
            result matches Ok(value) ==> old(self).rest() == be_bytes(value as nat, 4) 
                + final(self).rest(),
            result matches Err(error) ==> error is Corrupt,
    {
        proof {
            lemma_byte_spans();
        }
        match self.take_be(4) {
            Ok(value) => Ok(value as u32),
            Err(error) => Err(error),
        }
    }

    pub fn u64(&mut self) -> (result: Result<u64, StorageError>)
        requires
            old(self).wf(),
        ensures
            final(self).wf(),
            final(self).bytes == old(self).bytes,
            result is Ok <==> old(self).rest().len() >= 8,
            result matches Ok(value) ==> old(self).rest() == be_bytes(value as nat, 8) 
                + final(self).rest(),
            result matches Err(error) ==> error is Corrupt,
    {
        proof {
            lemma_byte_spans();
        }
        match self.take_be(8) {
            Ok(value) => Ok(value as u64),
            Err(error) => Err(error),
        }
    }

    pub fn u128(&mut self) -> (result: Result<u128, StorageError>)
        requires
            old(self).wf(),
        ensures
            final(self).wf(),
            final(self).bytes == old(self).bytes,
            result is Ok <==> old(self).rest().len() >= 16,
            result matches Ok(value) ==> old(self).rest() == be_bytes(value as nat, 16) 
                + final(self).rest(),
            result matches Err(error) ==> error is Corrupt,
    {
        self.take_be(16)
    }
}

/// A value that can be appended to a durable buffer.
pub trait DurableEncode {
    /// The bytes that stand for the value.
    spec fn wire(&self) -> Seq<u8>;

    /// Whether every length inside the value is within the limits of a read.
    spec fn durable(&self) -> bool;

    fn encode(&self, out: &mut DurableEncoder) -> (result: Result<(), StorageError>)
        ensures
            result is Ok,
            final(out)@ == old(out)@ + self.wire(),
    ;
}

/// A value that can also be read back from a durable buffer.
pub trait DurableCodec: DurableEncode + Sized {
    /// Whether two values hold the same contents.
    spec fn same(&self, other: &Self) -> bool;

    /// No buffer starts with the bytes of two different values.
    proof fn lemma_unambiguous(a: &Self, b: &Self, a_tail: Seq<u8>, b_tail: Seq<u8>)
        requires
            a.durable(),
            b.durable(),
            a.wire() + a_tail == b.wire() + b_tail,
        ensures
            a.same(b),
            a_tail == b_tail,
    ;

    fn decode(input: &mut DurableDecoder<'_>) -> (result: Result<Self, StorageError>)
        requires
            old(input).wf(),
        ensures
            final(input).wf(),
            final(input).bytes == old(input).bytes,
            result is Ok <==> starts_with_value::<Self>(old(input).rest()),
            result matches Ok(value) ==> value.durable() && old(input).rest() == value.wire()
                + final(input).rest(),
            result matches Err(error) ==> error is Corrupt,
    ;
}

/// Whether some readable `T` stands at the front of `bytes`.
pub open spec fn starts_with_value<T: DurableEncode>(bytes: Seq<u8>) -> bool {
    exists|value: T, tail: Seq<u8>| value.durable() && bytes == #[trigger] (value.wire() + tail)
}

proof fn lemma_be_unambiguous(a: nat, b: nat, width: nat, a_tail: Seq<u8>, b_tail: Seq<u8>)
    requires
        a < byte_span(width),
        b < byte_span(width),
        be_bytes(a, width) + a_tail == be_bytes(b, width) + b_tail,
    ensures
        a == b,
        a_tail == b_tail,
{
    lemma_be_bytes_value(a, width);
    lemma_be_bytes_value(b, width);
    lemma_split_unique(be_bytes(a, width), a_tail, be_bytes(b, width), b_tail);
}

/// Two splits of one buffer at the same place have the same halves.
pub proof fn lemma_split_unique(a: Seq<u8>, a_tail: Seq<u8>, b: Seq<u8>, b_tail: Seq<u8>)
    requires
        a.len() == b.len(),
        a + a_tail == b + b_tail,
    ensures
        a == b,
        a_tail == b_tail,
{
    assert((a + a_tail).take(a.len() as int) =~= a);
    assert((b + b_tail).take(a.len() as int) =~= b);
    assert((a + a_tail).skip(a.len() as int) =~= a_tail);
    assert((b + b_tail).skip(a.len() as int) =~= b_tail);
}

pub proof fn lemma_starts_with_value<T: DurableEncode>(value: T, tail: Seq<u8>)
    requires
        value.durable(),
    ensures
        starts_with_value::<T>(value.wire() + tail),
{
}

/// What is left behind a tag byte.
pub proof fn lemma_drop_tag(tag: u8, body: Seq<u8>, tail: Seq<u8>)
    ensures
        (seq![tag] + body + tail).skip(1) == body + tail,
        (seq![tag] + body + tail)[0] == tag,
{
    assert((seq![tag] + body + tail).skip(1) =~= body + tail);
}

impl DurableEncode for u8 {
    open spec fn wire(&self) -> Seq<u8> {
        seq![*self]
    }

    open spec fn durable(&self) -> bool {
        true
    }

    fn encode(&self, out: &mut DurableEncoder) -> (result: Result<(), StorageError>) {
        out.put_u8(*self);
        Ok(())
    }
}

impl DurableCodec for u8 {
    open spec fn same(&self, other: &u8) -> bool {
        *self == *other
    }

    proof fn lemma_unambiguous(a: &u8, b: &u8, a_tail: Seq<u8>, b_tail: Seq<u8>) {
        lemma_split_unique(a.wire(), a_tail, b.wire(), b_tail);
        assert(a.wire()[0] == b.wire()[0]);
    }

    fn decode(input: &mut DurableDecoder<'_>) -> (result: Result<u8, StorageError>) {
        let ghost bytes = input.rest();
        let result = input.u8();
        proof {
            match result {
                Ok(value) => lemma_starts_with_value(value, input.rest()),
                Err(_) => {
                    assert forall|value: u8, tail: Seq<u8>| #[trigger]
                        (value.wire() + tail) == bytes implies false by {
                        assert((value.wire() + tail).len() >= 1);
                    }
                },
            }
        }
        result
    }
}

impl DurableEncode for u32 {
    open spec fn wire(&self) -> Seq<u8> {
        be_bytes(*self as nat, 4)
    }

    open spec fn durable(&self) -> bool {
        true
    }

    fn encode(&self, out: &mut DurableEncoder) -> (result: Result<(), StorageError>) {
        out.put_u32(*self);
        Ok(())
    }
}

impl DurableCodec for u32 {
    open spec fn same(&self, other: &u32) -> bool {
        *self == *other
    }

    proof fn lemma_unambiguous(a: &u32, b: &u32, a_tail: Seq<u8>, b_tail: Seq<u8>) {
        lemma_byte_spans();
        lemma_be_unambiguous(*a as nat, *b as nat, 4, a_tail, b_tail);
    }

    fn decode(input: &mut DurableDecoder<'_>) -> (result: Result<u32, StorageError>) {
        let ghost bytes = input.rest();
        let result = input.u32();
        proof {
            match result {
                Ok(value) => lemma_starts_with_value(value, input.rest()),
                Err(_) => {
                    assert forall|value: u32, tail: Seq<u8>| #[trigger]
                        (value.wire() + tail) == bytes implies false by {
                        lemma_be_len(value as nat, 4);
                    }
                },
            }
        }
        result
    }
}

impl DurableEncode for u64 {
    open spec fn wire(&self) -> Seq<u8> {
        be_bytes(*self as nat, 8)
    }

    open spec fn durable(&self) -> bool {
        true
    }

    fn encode(&self, out: &mut DurableEncoder) -> (result: Result<(), StorageError>) {
        out.put_u64(*self);
        Ok(())
    }
}

impl DurableCodec for u64 {
    open spec fn same(&self, other: &u64) -> bool {
        *self == *other
    }

    proof fn lemma_unambiguous(a: &u64, b: &u64, a_tail: Seq<u8>, b_tail: Seq<u8>) {
        lemma_byte_spans();
        lemma_be_unambiguous(*a as nat, *b as nat, 8, a_tail, b_tail);
    }

    fn decode(input: &mut DurableDecoder<'_>) -> (result: Result<u64, StorageError>) {
        let ghost bytes = input.rest();
        let result = input.u64();
        proof {
            match result {
                Ok(value) => lemma_starts_with_value(value, input.rest()),
                Err(_) => {
                    assert forall|value: u64, tail: Seq<u8>| #[trigger]
                        (value.wire() + tail) == bytes implies false by {
                        lemma_be_len(value as nat, 8);
                    }
                },
            }
        }
        result
    }
}

impl DurableEncode for u128 {
    open spec fn wire(&self) -> Seq<u8> {
        be_bytes(*self as nat, 16)
    }

    open spec fn durable(&self) -> bool {
        true
    }

    fn encode(&self, out: &mut DurableEncoder) -> (result: Result<(), StorageError>) {
        out.put_u128(*self);
        Ok(())
    }
}

impl DurableCodec for u128 {
    open spec fn same(&self, other: &u128) -> bool {
        *self == *other
    }

    proof fn lemma_unambiguous(a: &u128, b: &u128, a_tail: Seq<u8>, b_tail: Seq<u8>) {
        lemma_byte_spans();
        lemma_be_unambiguous(*a as nat, *b as nat, 16, a_tail, b_tail);
        assert(a.same(b));
    }

    fn decode(input: &mut DurableDecoder<'_>) -> (result: Result<u128, StorageError>) {
        let ghost bytes = input.rest();
        let result = input.u128();
        proof {
            match result {
                Ok(value) => lemma_starts_with_value(value, input.rest()),
                Err(_) => {
                    assert forall|value: u128, tail: Seq<u8>| #[trigger]
                        (value.wire() + tail) == bytes implies false by {
                        lemma_be_len(value as nat, 16);
                    }
                },
            }
        }
        result
    }
}

impl DurableEncode for usize {
    open spec fn wire(&self) -> Seq<u8> {
        be_bytes(*self as nat, 8)
    }

    open spec fn durable(&self) -> bool {
        true
    }

    fn encode(&self, out: &mut DurableEncoder) -> (result: Result<(), StorageError>) {
        out.put_u64(*self as u64);
        Ok(())
    }
}

impl DurableCodec for usize {
    open spec fn same(&self, other: &usize) -> bool {
        *self == *other
    }

    proof fn lemma_unambiguous(a: &usize, b: &usize, a_tail: Seq<u8>, b_tail: Seq<u8>) {
        lemma_byte_spans();
        lemma_be_unambiguous(*a as nat, *b as nat, 8, a_tail, b_tail);
    }

    fn decode(input: &mut DurableDecoder<'_>) -> (result: Result<usize, StorageError>) {
        let ghost bytes = input.rest();
        let raw: u64 = match input.u64() {
            Ok(raw) => raw,
            Err(error) => {
                proof {
                    assert forall|value: usize, tail: Seq<u8>| #[trigger]
                        (value.wire() + tail) == bytes implies false by {
                        lemma_be_len(value as nat, 8);
                    }
                }
                return Err(error);
            },
        };
        if raw > usize::MAX as u64 {
            proof {
                assert forall|value: usize, tail: Seq<u8>| #[trigger]
                    (value.wire() + tail) == bytes implies false by {
                    lemma_byte_spans();
                    lemma_be_unambiguous(value as nat, raw as nat, 8, tail, input.rest());
                }
            }
            return Err(durable_codec_error("usize value exceeds platform size"));
        }
        let value: usize = raw as usize;
        proof {
            lemma_starts_with_value(value, input.rest());
        }
        Ok(value)
    }
}

impl DurableEncode for bool {
    open spec fn wire(&self) -> Seq<u8> {
        if *self {
            seq![1u8]
        } else {
            seq![0u8]
        }
    }

    open spec fn durable(&self) -> bool {
        true
    }

    fn encode(&self, out: &mut DurableEncoder) -> (result: Result<(), StorageError>) {
        if *self {
            out.put_u8(1);
        } else {
            out.put_u8(0);
        }
        Ok(())
    }
}

impl DurableCodec for bool {
    open spec fn same(&self, other: &bool) -> bool {
        *self == *other
    }

    proof fn lemma_unambiguous(a: &bool, b: &bool, a_tail: Seq<u8>, b_tail: Seq<u8>) {
        lemma_split_unique(a.wire(), a_tail, b.wire(), b_tail);
        assert(a.wire()[0] == b.wire()[0]);
    }

    fn decode(input: &mut DurableDecoder<'_>) -> (result: Result<bool, StorageError>) {
        let ghost bytes = input.rest();
        let tag: u8 = match input.u8() {
            Ok(tag) => tag,
            Err(error) => {
                proof {
                    assert forall|value: bool, tail: Seq<u8>| #[trigger]
                        (value.wire() + tail) == bytes implies false by {
                        assert((value.wire() + tail).len() >= 1);
                    }
                }
                return Err(error);
            },
        };
        if tag <= 1 {
            let value = tag == 1;
            proof {
                lemma_starts_with_value(value, input.rest());
            }
            Ok(value)
        } else {
            proof {
                assert forall|value: bool, tail: Seq<u8>| #[trigger]
                    (value.wire() + tail) == bytes implies false by {
                    assert((value.wire() + tail)[0] == bytes[0]);
                }
            }
            Err(durable_codec_error("invalid bool tag"))
        }
    }
}

impl<'a, T: DurableEncode> DurableEncode for &'a T {
    open spec fn wire(&self) -> Seq<u8> {
        (**self).wire()
    }

    open spec fn durable(&self) -> bool {
        (**self).durable()
    }

    fn encode(&self, out: &mut DurableEncoder) -> (result: Result<(), StorageError>) {
        (**self).encode(out)
    }
}

/// Two values one after the other.
#[verifier::opaque]
pub open spec fn pair_wire<A: DurableEncode, B: DurableEncode>(a: A, b: B) -> Seq<u8> {
    a.wire() + b.wire()
}

#[verifier::opaque]
pub open spec fn pair_durable<A: DurableEncode, B: DurableEncode>(a: A, b: B) -> bool {
    a.durable() && b.durable()
}

#[verifier::opaque]
pub open spec fn pair_same<A: DurableCodec, B: DurableCodec>(a: (A, B), b: (A, B)) -> bool {
    a.0.same(&b.0) && a.1.same(&b.1)
}

impl<A: DurableEncode, B: DurableEncode> DurableEncode for (A, B) {
    open spec fn wire(&self) -> Seq<u8> {
        pair_wire(self.0, self.1)
    }

    open spec fn durable(&self) -> bool {
        pair_durable(self.0, self.1)
    }

    fn encode(&self, out: &mut DurableEncoder) -> (result: Result<(), StorageError>) {
        reveal(pair_wire);
        self.0.encode(out)?;
        let result = self.1.encode(out);
        assert(out@ =~= old(out)@ + self.wire());
        result
    }
}

impl<A: DurableCodec, B: DurableCodec> DurableCodec for (A, B) {
    open spec fn same(&self, other: &(A, B)) -> bool {
        pair_same(*self, *other)
    }

    proof fn lemma_unambiguous(a: &(A, B), b: &(A, B), a_tail: Seq<u8>, b_tail: Seq<u8>) {
        reveal(pair_wire);
        reveal(pair_durable);
        reveal(pair_same);
        assert(a.wire() + a_tail =~= a.0.wire() + (a.1.wire() + a_tail));
        assert(b.wire() + b_tail =~= b.0.wire() + (b.1.wire() + b_tail));
        A::lemma_unambiguous(&a.0, &b.0, a.1.wire() + a_tail, b.1.wire() + b_tail);
        B::lemma_unambiguous(&a.1, &b.1, a_tail, b_tail);
        assert(a.same(b));
    }

    fn decode(input: &mut DurableDecoder<'_>) -> (result: Result<(A, B), StorageError>) {
        reveal(pair_wire);
        reveal(pair_durable);
        let ghost bytes = input.rest();
        let first = match A::decode(input) {
            Ok(first) => first,
            Err(error) => {
                proof {
                    if starts_with_value::<(A, B)>(bytes) {
                        let (v, tail) = choose|v: (A, B), tail: Seq<u8>|
                            v.durable() && bytes == #[trigger] (v.wire() + tail);
                        assert(v.wire() + tail =~= v.0.wire() + (v.1.wire() + tail));
                        assert(starts_with_value::<A>(bytes));
                    }
                }
                return Err(error);
            },
        };
        let ghost middle = input.rest();
        let second = match B::decode(input) {
            Ok(second) => second,
            Err(error) => {
                proof {
                    if starts_with_value::<(A, B)>(bytes) {
                        let (v, tail) = choose|v: (A, B), tail: Seq<u8>|
                            v.durable() && bytes == #[trigger] (v.wire() + tail);
                        assert(v.wire() + tail =~= v.0.wire() + (v.1.wire() + tail));
                        A::lemma_unambiguous(&v.0, &first, v.1.wire() + tail, middle);
                        assert(starts_with_value::<B>(middle));
                    }
                }
                return Err(error);
            },
        };
        let value = (first, second);
        assert(bytes =~= value.wire() + input.rest());
        Ok(value)
    }
}

impl<T: DurableEncode> DurableEncode for Option<T> {
    open spec fn wire(&self) -> Seq<u8> {
        match self {
            Some(value) => seq![1u8] + value.wire(),
            None => seq![0u8],
        }
    }

    open spec fn durable(&self) -> bool {
        match self {
            Some(value) => value.durable(),
            None => true,
        }
    }

    fn encode(&self, out: &mut DurableEncoder) -> (result: Result<(), StorageError>) {
        match self {
            Some(value) => {
                out.put_u8(1);
                let result = value.encode(out);
                assert(out@ =~= old(out)@ + self.wire());
                result
            },
            None => {
                out.put_u8(0);
                Ok(())
            },
        }
    }
}

impl<T: DurableCodec> DurableCodec for Option<T> {
    open spec fn same(&self, other: &Option<T>) -> bool {
        match (self, other) {
            (Some(a), Some(b)) => a.same(b),
            (None, None) => true,
            _ => false,
        }
    }

    proof fn lemma_unambiguous(a: &Option<T>, b: &Option<T>, a_tail: Seq<u8>, b_tail: Seq<u8>) {
        assert((a.wire() + a_tail)[0] == a.wire()[0]);
        assert((b.wire() + b_tail)[0] == b.wire()[0]);
        match (a, b) {
            (Some(x), Some(y)) => {
                lemma_drop_tag(1u8, x.wire(), a_tail);
                lemma_drop_tag(1u8, y.wire(), b_tail);
                T::lemma_unambiguous(x, y, a_tail, b_tail);
            },
            _ => {
                lemma_split_unique(a.wire(), a_tail, b.wire(), b_tail);
            },
        }
    }

    fn decode(input: &mut DurableDecoder<'_>) -> (result: Result<Option<T>, StorageError>) {
        let ghost bytes = input.rest();
        let tag: u8 = match input.u8() {
            Ok(tag) => tag,
            Err(error) => {
                proof {
                    assert forall|value: Option<T>, tail: Seq<u8>| #[trigger]
                        (value.wire() + tail) == bytes implies false by {
                        assert((value.wire() + tail).len() >= 1);
                    }
                }
                return Err(error);
            },
        };
        let ghost rest = input.rest();
        if tag == 0 {
            let value: Option<T> = None;
            proof {
                lemma_starts_with_value(value, rest);
            }
            Ok(value)
        } else if tag == 1 {
            match T::decode(input) {
                Ok(inner) => {
                    let value = Some(inner);
                    proof {
                        assert(bytes =~= value.wire() + input.rest());
                        lemma_starts_with_value(value, input.rest());
                    }
                    Ok(value)
                },
                Err(error) => {
                    proof {
                        assert forall|value: Option<T>, tail: Seq<u8>|
                            value.durable() && #[trigger] (value.wire() + tail) == bytes implies false by {
                            assert((value.wire() + tail)[0] == bytes[0]);
                            lemma_drop_tag(1u8, value->0.wire(), tail);
                            assert(bytes.skip(1) =~= rest);
                            lemma_starts_with_value(value->0, tail);
                        }
                    }
                    Err(error)
                },
            }
        } else {
            proof {
                assert forall|value: Option<T>, tail: Seq<u8>| #[trigger]
                    (value.wire() + tail) == bytes implies false by {
                    assert((value.wire() + tail)[0] == bytes[0]);
                }
            }
            Err(durable_codec_error("invalid option tag"))
        }
    }
}

/// The elements of a list one after the other.
pub open spec fn wire_all<T: DurableEncode>(items: Seq<T>) -> Seq<u8>
    decreases items.len(),
{
    if items.len() == 0 {
        seq![]
    } else {
        items[0].wire() + wire_all(items.drop_first())
    }
}

pub open spec fn all_durable<T: DurableEncode>(items: Seq<T>) -> bool {
    forall|i: int| 0 <= i < items.len() ==> (#[trigger] items[i]).durable()
}

pub open spec fn all_same<T: DurableCodec>(a: Seq<T>, b: Seq<T>) -> bool {
    &&& a.len() == b.len()
    &&& forall|i: int| 0 <= i < a.len() ==> (#[trigger] a[i]).same(&b[i])
}

pub proof fn lemma_wire_all_concat<T: DurableEncode>(a: Seq<T>, b: Seq<T>)
    ensures
        wire_all(a + b) == wire_all(a) + wire_all(b),
    decreases a.len(),
{
    if a.len() == 0 {
        assert(a + b =~= b);
        assert(wire_all(a) + wire_all(b) =~= wire_all(b));
    } else {
        lemma_wire_all_concat(a.drop_first(), b);
        assert((a + b).drop_first() =~= a.drop_first() + b);
        assert(wire_all(a + b) =~= wire_all(a) + wire_all(b));
    }
}

pub proof fn lemma_wire_all_push<T: DurableEncode>(items: Seq<T>, item: T)
    ensures
        wire_all(items.push(item)) == wire_all(items) + item.wire(),
{
    assert(items.push(item) =~= items + seq![item]);
    lemma_wire_all_concat(items, seq![item]);
    assert(seq![item].drop_first() =~= Seq::<T>::empty());
    reveal_with_fuel(wire_all, 2);
    assert(wire_all(seq![item]) =~= item.wire());
}

/// Two lists of one length that start the same buffer are the same list.
pub proof fn lemma_wire_all_unambiguous<T: DurableCodec>(
    a: Seq<T>,
    b: Seq<T>,
    a_tail: Seq<u8>,
    b_tail: Seq<u8>,
)
    requires
        a.len() == b.len(),
        all_durable(a),
        all_durable(b),
        wire_all(a) + a_tail == wire_all(b) + b_tail,
    ensures
        all_same(a, b),
        a_tail == b_tail,
    decreases a.len(),
{
    if a.len() == 0 {
        assert(wire_all(a) + a_tail =~= a_tail);
        assert(wire_all(b) + b_tail =~= b_tail);
    } else {
        let (a_rest, b_rest) = (a.drop_first(), b.drop_first());
        assert(wire_all(a) + a_tail =~= a[0].wire() + (wire_all(a_rest) + a_tail));
        assert(wire_all(b) + b_tail =~= b[0].wire() + (wire_all(b_rest) + b_tail));
        T::lemma_unambiguous(&a[0], &b[0], wire_all(a_rest) + a_tail, wire_all(b_rest) + b_tail);
        assert forall|i: int| 0 <= i < a_rest.len() implies (#[trigger] a_rest[i]).durable() by {
            assert(a[i + 1].durable());
        }
        assert forall|i: int| 0 <= i < b_rest.len() implies (#[trigger] b_rest[i]).durable() by {
            assert(b[i + 1].durable());
        }
        lemma_wire_all_unambiguous(a_rest, b_rest, a_tail, b_tail);
        assert forall|i: int| 0 <= i < a.len() implies (#[trigger] a[i]).same(&b[i]) by {
            if i > 0 {
                assert(a_rest[i - 1].same(&b_rest[i - 1]));
            }
        }
    }
}

/// A list that starts a buffer whose first elements were read already has
/// its next element at the read position.
proof fn lemma_wire_all_next<T: DurableCodec>(
    items: Seq<T>,
    tail: Seq<u8>,
    read: Seq<T>,
    rest: Seq<u8>,
)
    requires
        read.len() < items.len(),
        all_durable(items),
        all_durable(read),
        wire_all(items) + tail == wire_all(read) + rest,
    ensures
        starts_with_value::<T>(rest),
{
    let n = read.len() as int;
    let (front, back) = (items.take(n), items.skip(n));
    assert(items =~= front + back);
    lemma_wire_all_concat(front, back);
    assert(wire_all(items) + tail =~= wire_all(front) + (wire_all(back) + tail));
    assert forall|i: int| 0 <= i < front.len() implies (#[trigger] front[i]).durable() by {
        assert(items[i].durable());
    }
    lemma_wire_all_unambiguous(front, read, wire_all(back) + tail, rest);
    assert(back[0] == items[n]);
    assert(rest =~= back[0].wire() + (wire_all(back.drop_first()) + tail));
    lemma_starts_with_value(back[0], wire_all(back.drop_first()) + tail);
}

impl<T: DurableEncode> DurableEncode for Vec<T> {
    open spec fn wire(&self) -> Seq<u8> {
        be_bytes(self@.len(), 8) + wire_all(self@)
    }

    open spec fn durable(&self) -> bool {
        self@.len() <= MAX_DURABLE_COLLECTION_LEN && all_durable(self@)
    }

    fn encode(&self, out: &mut DurableEncoder) -> (result: Result<(), StorageError>) {
        out.put_u64(self.len() as u64);
        let ghost start = out@;
        let mut i: usize = 0;
        assert(self@.take(0) =~= Seq::<T>::empty());
        assert(out@ =~= start + wire_all(self@.take(0)));
        while i < self.len()
            invariant
                i <= self@.len(),
                out@ == start + wire_all(self@.take(i as int)),
            decreases self@.len() - i,
        {
            self[i].encode(out)?;
            proof {
                lemma_wire_all_push(self@.take(i as int), self@[i as int]);
                assert(self@.take(i + 1) =~= self@.take(i as int).push(self@[i as int]));
                assert(out@ =~= start + wire_all(self@.take(i + 1)));
            }
            i = i + 1;
        }
        assert(self@.take(self@.len() as int) =~= self@);
        assert(out@ =~= old(out)@ + self.wire());
        Ok(())
    }
}

impl<T: DurableCodec> DurableCodec for Vec<T> {
    open spec fn same(&self, other: &Vec<T>) -> bool {
        all_same(self@, other@)
    }

    proof fn lemma_unambiguous(a: &Vec<T>, b: &Vec<T>, a_tail: Seq<u8>, b_tail: Seq<u8>) {
        assert(a.wire() + a_tail =~= be_bytes(a@.len(), 8) + (wire_all(a@) + a_tail));
        assert(b.wire() + b_tail =~= be_bytes(b@.len(), 8) + (wire_all(b@) + b_tail));
        lemma_byte_spans();
        lemma_be_unambiguous(a@.len(), b@.len(), 8, wire_all(a@) + a_tail, wire_all(b@) + b_tail);
        lemma_wire_all_unambiguous(a@, b@, a_tail, b_tail);
    }

    fn decode(input: &mut DurableDecoder<'_>) -> (result: Result<Vec<T>, StorageError>) {
        let ghost bytes = input.rest();
        let len: u64 = match u64::decode(input) {
            Ok(len) => len,
            Err(error) => {
                proof {
                    assert forall|value: Vec<T>, tail: Seq<u8>|
                        value.durable() && #[trigger] (value.wire() + tail) == bytes implies false by {
                        assert(bytes =~= (value@.len() as u64).wire() + (wire_all(value@) + tail));
                        lemma_starts_with_value(value@.len() as u64, wire_all(value@) + tail);
                    }
                }
                return Err(error);
            },
        };
        let ghost elements = input.rest();
        proof {
            assert forall|value: Vec<T>, tail: Seq<u8>|
                value.durable() && #[trigger] (value.wire() + tail) == bytes implies value@.len()
                == len && elements == wire_all(value@) + tail by {
                assert(bytes =~= be_bytes(value@.len(), 8) + (wire_all(value@) + tail));
                lemma_byte_spans();
                lemma_be_unambiguous(
                    value@.len(),
                    len as nat,
                    8,
                    wire_all(value@) + tail,
                    elements,
                );
            }
        }
        if len > MAX_DURABLE_COLLECTION_LEN {
            return Err(durable_codec_error("vector length exceeds durable limit"));
        }
        let mut values: Vec<T> = Vec::new();
        let mut read: u64 = 0;
        assert(wire_all(values@) + elements =~= elements);
        while read < len
            invariant
                read <= len <= MAX_DURABLE_COLLECTION_LEN,
                read == values@.len(),
                all_durable(values@),
                input.wf(),
                input.bytes == old(input).bytes,
                elements == wire_all(values@) + input.rest(),
                bytes == old(input).rest(),
                forall|value: Vec<T>, tail: Seq<u8>|
                    value.durable() && #[trigger] (value.wire() + tail) == bytes ==> value@.len()
                        == len && elements == wire_all(value@) + tail,
            decreases len - read,
        {
            let ghost rest = input.rest();
            match T::decode(input) {
                Ok(value) => {
                    proof {
                        lemma_wire_all_push(values@, value);
                        assert(elements =~= wire_all(values@.push(value)) + input.rest());
                    }
                    values.push(value);
                    read = read + 1;
                },
                Err(error) => {
                    proof {
                        assert forall|value: Vec<T>, tail: Seq<u8>|
                            value.durable() && #[trigger] (value.wire() + tail) == bytes implies false by {
                            lemma_wire_all_next(value@, tail, values@, rest);
                        }
                    }
                    return Err(error);
                },
            }
        }
        proof {
            assert(bytes =~= values.wire() + input.rest());
            lemma_starts_with_value(values, input.rest());
        }
        Ok(values)
    }
}

/// The contents of `bytes` as a string, by `String::from_utf8`: `None`
/// exactly when they are not well-formed UTF-8.
#[verifier::external_body]
fn string_from_utf8(bytes: Vec<u8>) -> (result: Option<String>)
    ensures
        result is Some <==> valid_utf8(bytes@),
        result matches Some(text) ==> text@ == decode_utf8(bytes@),
{
    String::from_utf8(bytes).ok()
}

impl DurableEncode for String {
    open spec fn wire(&self) -> Seq<u8> {
        be_bytes(encode_utf8(self@).len(), 8) + encode_utf8(self@)
    }

    open spec fn durable(&self) -> bool {
        encode_utf8(self@).len() <= MAX_DURABLE_STRING_LEN
    }

    fn encode(&self, out: &mut DurableEncoder) -> (result: Result<(), StorageError>) {
        let bytes = self.as_str().as_bytes();
        out.put_u64(bytes.len() as u64);
        out.put_slice(bytes);
        assert(out@ =~= old(out)@ + self.wire());
        Ok(())
    }
}

impl DurableCodec for String {
    open spec fn same(&self, other: &String) -> bool {
        self@ == other@
    }

    proof fn lemma_unambiguous(a: &String, b: &String, a_tail: Seq<u8>, b_tail: Seq<u8>) {
        let (x, y) = (encode_utf8(a@), encode_utf8(b@));
        assert(a.wire() + a_tail =~= be_bytes(x.len(), 8) + (x + a_tail));
        assert(b.wire() + b_tail =~= be_bytes(y.len(), 8) + (y + b_tail));
        lemma_byte_spans();
        lemma_be_unambiguous(x.len(), y.len(), 8, x + a_tail, y + b_tail);
        lemma_split_unique(x, a_tail, y, b_tail);
        vstd::utf8::encode_utf8_decode_utf8(a@);
        vstd::utf8::encode_utf8_decode_utf8(b@);
    }

    fn decode(input: &mut DurableDecoder<'_>) -> (result: Result<String, StorageError>) {
        let ghost bytes = input.rest();
        let len: u64 = match u64::decode(input) {
            Ok(len) => len,
            Err(error) => {
                proof {
                    assert forall|value: String, tail: Seq<u8>|
                        value.durable() && #[trigger] (value.wire() + tail) == bytes implies false by {
                        let text = encode_utf8(value@);
                        assert(bytes =~= (text.len() as u64).wire() + (text + tail));
                        lemma_starts_with_value(text.len() as u64, text + tail);
                    }
                }
                return Err(error);
            },
        };
        let ghost text_bytes = input.rest();
        proof {
            assert forall|value: String, tail: Seq<u8>|
                value.durable() && #[trigger] (value.wire() + tail) == bytes implies encode_utf8(
                value@,
            ).len() == len && text_bytes == encode_utf8(value@) + tail by {
                let text = encode_utf8(value@);
                assert(bytes =~= be_bytes(text.len(), 8) + (text + tail));
                lemma_byte_spans();
                lemma_be_unambiguous(text.len(), len as nat, 8, text + tail, text_bytes);
            }
        }
        if len > MAX_DURABLE_STRING_LEN {
            return Err(durable_codec_error("string length exceeds durable limit"));
        }
        let taken = match input.take(len as usize) {
            Ok(taken) => taken,
            Err(error) => {
                proof {
                    assert forall|value: String, tail: Seq<u8>|
                        value.durable() && #[trigger] (value.wire() + tail) == bytes implies false by {
                        assert(text_bytes.len() >= len);
                    }
                }
                return Err(error);
            },
        };
        let owned = vstd::slice::slice_to_vec(taken);
        match string_from_utf8(owned) {
            Some(text) => {
                proof {
                    vstd::utf8::decode_utf8_encode_utf8(taken@);
                    assert(text_bytes =~= taken@ + input.rest());
                    assert(bytes =~= text.wire() + input.rest());
                    lemma_starts_with_value(text, input.rest());
                }
                Ok(text)
            },
            None => {
                proof {
                    assert forall|value: String, tail: Seq<u8>|
                        value.durable() && #[trigger] (value.wire() + tail) == bytes implies false by {
                        vstd::utf8::encode_utf8_valid_utf8(value@);
                        assert(text_bytes.take(len as int) =~= encode_utf8(value@));
                    }
                }
                Err(durable_codec_error("invalid UTF-8 string"))
            },
        }
    }
}

/// The bytes of one stored row.
pub fn encode_row<T: DurableEncode>(value: &T) -> (result: Result<Vec<u8>, StorageError>)
    ensures
        result matches Ok(bytes) && bytes@ == value.wire(),
{
    let mut out = DurableEncoder::new();
    value.encode(&mut out)?;
    assert(out@ =~= value.wire());
    Ok(out.finish())
}

/// The value of one stored row, which must hold nothing else.
pub fn decode_row<T: DurableCodec>(bytes: &[u8]) -> (result: Result<T, StorageError>)
    ensures
        result is Ok <==> exists|value: T| value.durable() && #[trigger] value.wire() == bytes@,
        result matches Ok(value) ==> value.durable() && value.wire() == bytes@,
        result matches Err(error) ==> error is Corrupt,
{
    let mut input = DurableDecoder::new(bytes);
    let value = match T::decode(&mut input) {
        Ok(value) => value,
        Err(error) => {
            proof {
                assert forall|value: T| value.durable() && #[trigger] value.wire()
                    == bytes@ implies false by {
                    assert(value.wire() + Seq::<u8>::empty() =~= bytes@);
                    lemma_starts_with_value(value, Seq::<u8>::empty());
                }
            }
            return Err(error);
        },
    };
    match input.finish() {
        Ok(()) => {
            assert(value.wire() =~= bytes@);
            Ok(value)
        },
        Err(error) => {
            proof {
                assert forall|other: T| other.durable() && #[trigger] other.wire()
                    == bytes@ implies false by {
                    assert(other.wire() + Seq::<u8>::empty() =~= bytes@);
                    T::lemma_unambiguous(&other, &value, Seq::<u8>::empty(), input.rest());
                }
            }
            Err(error)
        },
    }
}

/// A row that was written from a value within the limits reads back, and
/// whatever is read from it holds the same contents.
pub proof fn law_row_round_trip<T: DurableCodec>(written: T, read: T)
    requires
        written.durable(),
        read.durable(),
        read.wire() == written.wire(),
    ensures
        starts_with_value::<T>(written.wire()),
        read.same(&written),
{
    let none = Seq::<u8>::empty();
    assert(written.wire() + none =~= written.wire());
    lemma_starts_with_value(written, none);
    T::lemma_unambiguous(&read, &written, none, none);
}

} // verus!
