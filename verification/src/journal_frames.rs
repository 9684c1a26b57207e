//! The frames of the block journal: the length and the checksum of a payload, and
//! the payload.
use vstd::prelude::*;

use crate::checksum::{checksum, data_log_checksum};
use crate::codec::{
    DurableDecoder, DurableEncoder, be_bytes, be_value, lemma_be_bytes_value, lemma_be_len,
    lemma_byte_spans,
};
use crate::error::StorageError;

verus! {

/// The length of what stands before a payload.
pub const JOURNAL_FRAME_HEADER: usize = 16;

/// A payload in its frame.
pub open spec fn frame_of(payload: Seq<u8>) -> Seq<u8> {
    be_bytes(payload.len(), 8) + be_bytes(checksum(payload) as nat, 8) + payload
}

/// Payloads in their frames, one behind the other.
pub open spec fn frames_of(payloads: Seq<Seq<u8>>) -> Seq<u8>
    decreases payloads.len(),
{
    if payloads.len() == 0 {
        seq![]
    } else {
        frame_of(payloads[0]) + frames_of(payloads.drop_first())
    }
}

/// The payloads of a journal. A frame at the end that was not written whole is left
/// out; a frame before the end whose checksum is wrong spoils the journal.
pub open spec fn payloads_of(bytes: Seq<u8>) -> Option<Seq<Seq<u8>>>
    decreases bytes.len(),
{
    if bytes.len() < JOURNAL_FRAME_HEADER {
        Some(seq![])
    } else {
        let len = be_value(bytes.take(8));
        let sum = be_value(bytes.subrange(8, 16));
        let after = bytes.skip(16);
        if len > after.len() {
            Some(seq![])
        } else {
            let payload = after.take(len as int);
            let next = after.skip(len as int);
            if checksum(payload) as nat != sum {
                if next.len() == 0 {
                    Some(seq![])
                } else {
                    None
                }
            } else {
                match payloads_of(next) {
                    Some(rest) => Some(seq![payload] + rest),
                    None => None,
                }
            }
        }
    }
}

/// Puts a payload into a frame.
pub fn journal_frame(payload: &[u8]) -> (frame: Vec<u8>)
    ensures
        frame@ == frame_of(payload@),
{
    let mut out = DurableEncoder::new();
    out.put_u64(payload.len() as u64);
    out.put_u64(data_log_checksum(payload));
    out.put_slice(payload);
    let frame = out.finish();
    assert(frame@ =~= frame_of(payload@));
    frame
}

/// What payloads hold.
pub open spec fn payload_views(payloads: Seq<Vec<u8>>) -> Seq<Seq<u8>> {
    payloads.map_values(|payload: Vec<u8>| payload@)
}

/// The payloads of a journal's frames.
pub fn journal_frames(bytes: &[u8]) -> (result: Result<Vec<Vec<u8>>, StorageError>)
    ensures
        result is Ok <==> payloads_of(bytes@) is Some,
        result matches Ok(payloads) ==> payloads_of(bytes@) == Some(payload_views(payloads@)),
        result matches Err(error) ==> error is Corrupt,
{
    let mut payloads: Vec<Vec<u8>> = Vec::new();
    let mut input = DurableDecoder::new(bytes);
    proof {
        assert(payload_views(payloads@) =~= seq![]);
        if let Some(rest) = payloads_of(bytes@) {
            assert(payload_views(payloads@) + rest =~= rest);
        }
    }
    loop
        invariant
            input.wf(),
            input.bytes@ == bytes@,
            match payloads_of(input.rest()) {
                Some(rest) => payloads_of(bytes@) == Some(payload_views(payloads@) + rest),
                None => payloads_of(bytes@) is None,
            },
        decreases input.rest().len(),
    {
        let ghost rest = input.rest();
        let ghost done = payload_views(payloads@);
        let left: usize = bytes.len() - input.offset;
        assert(left == rest.len());
        if left < JOURNAL_FRAME_HEADER {
            assert(done + seq![] =~= done);
            return Ok(payloads);
        }
        let len: u64 = match input.u64() {
            Ok(len) => len,
            Err(error) => {
                assert(false);
                return Err(error);
            },
        };
        proof {
            lemma_be_len(len as nat, 8);
        }
        let sum: u64 = match input.u64() {
            Ok(sum) => sum,
            Err(error) => {
                assert(false);
                return Err(error);
            },
        };
        let ghost after = input.rest();
        proof {
            lemma_header(rest, len, sum, after);
        }
        let room: usize = bytes.len() - input.offset;
        assert(room == after.len());
        if len > room as u64 {
            assert(done + seq![] =~= done);
            return Ok(payloads);
        }
        let payload = match input.take(len as usize) {
            Ok(payload) => payload,
            Err(error) => {
                assert(false);
                return Err(error);
            },
        };
        if data_log_checksum(payload) != sum {
            if input.offset == bytes.len() {
                assert(done + seq![] =~= done);
                return Ok(payloads);
            }
            return Err(StorageError::corrupt("block journal checksum mismatch"));
        }
        payloads.push(vstd::slice::slice_to_vec(payload));
        proof {
            assert(payload_views(payloads@) =~= done.push(payload@));
            if let Some(next) = payloads_of(input.rest()) {
                assert(done + (seq![payload@] + next) =~= done.push(payload@) + next);
            }
        }
    }
}

/// What a header was written from is read from it.
proof fn lemma_header(bytes: Seq<u8>, len: u64, sum: u64, after: Seq<u8>)
    requires
        bytes == be_bytes(len as nat, 8) + (be_bytes(sum as nat, 8) + after),
    ensures
        bytes.len() >= 16,
        be_value(bytes.take(8)) == len,
        be_value(bytes.subrange(8, 16)) == sum,
        bytes.skip(16) == after,
{
    lemma_byte_spans();
    lemma_be_bytes_value(len as nat, 8);
    lemma_be_bytes_value(sum as nat, 8);
    assert(bytes.take(8) =~= be_bytes(len as nat, 8));
    assert(bytes.subrange(8, 16) =~= be_bytes(sum as nat, 8));
    assert(bytes.skip(16) =~= after);
}

/// What was put into frames is read from them, also where the last frame was not
/// written beyond its header.
pub proof fn law_frames_are_read_back(payloads: Seq<Seq<u8>>, torn: Seq<u8>)
    requires
        torn.len() < JOURNAL_FRAME_HEADER,
        forall|i: int| 0 <= i < payloads.len() ==> (#[trigger] payloads[i]).len() <= u64::MAX,
    ensures
        payloads_of(frames_of(payloads) + torn) == Some(payloads),
    decreases payloads.len(),
{
    let bytes = frames_of(payloads) + torn;
    if payloads.len() == 0 {
        assert(bytes =~= torn);
        assert(payloads =~= seq![]);
    } else {
        let (first, rest) = (payloads[0], payloads.drop_first());
        assert forall|i: int| 0 <= i < rest.len() implies (#[trigger] rest[i]).len()
            <= u64::MAX by {
            assert(rest[i] == payloads[i + 1]);
        }
        law_frames_are_read_back(rest, torn);
        let tail = frames_of(rest) + torn;
        let after = first + tail;
        lemma_be_len(first.len(), 8);
        lemma_be_len(checksum(first) as nat, 8);
        assert(bytes =~= be_bytes(first.len(), 8) + (be_bytes(checksum(first) as nat, 8)
            + after));
        lemma_header(bytes, first.len() as u64, checksum(first), after);
        assert(after.take(first.len() as int) =~= first);
        assert(after.skip(first.len() as int) =~= tail);
        assert(seq![first] + rest =~= payloads);
    }
}

} // verus!
