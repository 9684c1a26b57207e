//! Aligned writes: lengths, padding and retries of short writes.
use vstd::prelude::*;

use crate::error::StorageError;
use crate::text::is_text;

verus! {

/// The alignment of direct writes where nothing else is asked for.
pub const DIRECT_IO_DEFAULT_ALIGNMENT: usize = 4096;

/// How many unaligned short writes in a row end a direct write.
pub const DIRECT_IO_MAX_UNALIGNED_SHORT_WRITES: u8 = 16;

/// Whether `value` is one, two, four, and so on.
pub open spec fn is_power_of_two(value: nat) -> bool
    decreases value,
{
    value == 1 || (value > 1 && value % 2 == 0 && is_power_of_two(value / 2))
}

/// Whether `value` is one, two, four, and so on.
pub fn power_of_two(value: u64) -> (power: bool)
    ensures
        power == is_power_of_two(value as nat),
{
    let mut rest: u64 = value;
    while rest > 1 && rest % 2 == 0
        invariant
            is_power_of_two(rest as nat) == is_power_of_two(value as nat),
        decreases rest,
    {
        rest = rest / 2;
    }
    rest == 1
}

/// `len` rounded up to whole units of `alignment`.
pub open spec fn aligned_up(len: int, alignment: int) -> int {
    (len + alignment - 1) / alignment * alignment
}

/// The low-level backends that a store can be asked to write through.
#[derive(Clone, Copy, Debug, PartialEq, Eq, Structural)]
pub enum DurableLowLevelIoBackend {
    Filesystem,
    DirectIo,
    DirectIoOrFilesystem,
}

/// The backend that a store ended up with.
#[derive(Clone, Copy, Debug, PartialEq, Eq, Structural)]
pub enum ResolvedDurableLowLevelIoBackend {
    Filesystem,
    DirectIo { alignment: usize },
}

impl DurableLowLevelIoBackend {
    /// Whether direct writes are tried at all.
    pub fn wants_direct_io(self) -> (wants: bool)
        ensures
            wants == (self != DurableLowLevelIoBackend::Filesystem),
    {
        match self {
            DurableLowLevelIoBackend::Filesystem => false,
            DurableLowLevelIoBackend::DirectIo => true,
            DurableLowLevelIoBackend::DirectIoOrFilesystem => true,
        }
    }

    /// The backend to use, given how the probe for direct writes ended. Only a
    /// store that insists on direct writes fails with the probe.
    pub fn resolve(self, probe: Result<(), StorageError>) -> (result: Result<
        ResolvedDurableLowLevelIoBackend,
        StorageError,
    >)
        ensures
            result == match (self, probe) {
                (DurableLowLevelIoBackend::Filesystem, _) => Ok::<
                    ResolvedDurableLowLevelIoBackend,
                    StorageError,
                >(ResolvedDurableLowLevelIoBackend::Filesystem),
                (_, Ok(())) => Ok(
                    ResolvedDurableLowLevelIoBackend::DirectIo {
                        alignment: DIRECT_IO_DEFAULT_ALIGNMENT,
                    },
                ),
                (DurableLowLevelIoBackend::DirectIo, Err(error)) => Err(error),
                (DurableLowLevelIoBackend::DirectIoOrFilesystem, Err(_)) => Ok(
                    ResolvedDurableLowLevelIoBackend::Filesystem,
                ),
            },
    {
        match self {
            DurableLowLevelIoBackend::Filesystem => Ok(
                ResolvedDurableLowLevelIoBackend::Filesystem,
            ),
            DurableLowLevelIoBackend::DirectIo => match probe {
                Ok(()) => Ok(
                    ResolvedDurableLowLevelIoBackend::DirectIo {
                        alignment: DIRECT_IO_DEFAULT_ALIGNMENT,
                    },
                ),
                Err(error) => Err(error),
            },
            DurableLowLevelIoBackend::DirectIoOrFilesystem => match probe {
                Ok(()) => Ok(
                    ResolvedDurableLowLevelIoBackend::DirectIo {
                        alignment: DIRECT_IO_DEFAULT_ALIGNMENT,
                    },
                ),
                Err(_) => Ok(ResolvedDurableLowLevelIoBackend::Filesystem),
            },
        }
    }

    /// The backend with a given name.
    pub fn from_name(value: &str) -> (result: Result<DurableLowLevelIoBackend, StorageError>)
        ensures
            result is Ok <==> backend_named(value@) is Some,
            result matches Ok(backend) ==> backend_named(value@) == Some(backend),
            result matches Err(error) ==> error is InvalidArgument,
    {
        if is_text(value, "filesystem") || is_text(value, "fs") || is_text(value, "buffered") {
            Ok(DurableLowLevelIoBackend::Filesystem)
        } else if is_text(value, "direct-io") || is_text(value, "direct") || is_text(
            value,
            "odirect",
        ) {
            Ok(DurableLowLevelIoBackend::DirectIo)
        } else if is_text(value, "direct-io-or-filesystem") || is_text(value, "direct-or-fs")
            || is_text(value, "auto") {
            Ok(DurableLowLevelIoBackend::DirectIoOrFilesystem)
        } else {
            Err(StorageError::invalid_argument("unknown durable low-level I/O backend"))
        }
    }
}

/// The backend that a name stands for.
pub open spec fn backend_named(name: Seq<char>) -> Option<DurableLowLevelIoBackend> {
    if name == "filesystem"@ || name == "fs"@ || name == "buffered"@ {
        Some(DurableLowLevelIoBackend::Filesystem)
    } else if name == "direct-io"@ || name == "direct"@ || name == "odirect"@ {
        Some(DurableLowLevelIoBackend::DirectIo)
    } else if name == "direct-io-or-filesystem"@ || name == "direct-or-fs"@ || name == "auto"@ {
        Some(DurableLowLevelIoBackend::DirectIoOrFilesystem)
    } else {
        None
    }
}

/// Accepts exactly the alignments that direct writes can have.
pub fn validate_direct_io_alignment(alignment: usize) -> (result: Result<(), StorageError>)
    ensures
        result is Ok <==> is_power_of_two(alignment as nat),
        result matches Err(error) ==> error is InvalidArgument,
{
    if power_of_two(alignment as u64) {
        Ok(())
    } else {
        Err(StorageError::invalid_argument("direct I/O alignment must be a power of two"))
    }
}

/// `len` rounded up to whole units of `alignment`.
pub fn aligned_len(len: usize, alignment: usize) -> (result: Result<usize, StorageError>)
    requires
        alignment > 0,
    ensures
        result is Ok <==> len + alignment - 1 <= usize::MAX,
        result matches Ok(aligned) ==> aligned == aligned_up(len as int, alignment as int),
        result matches Ok(aligned) ==> len <= aligned < len + alignment && aligned % alignment == 0,
        result matches Err(error) ==> error is InvalidArgument,
{
    let mask: usize = alignment - 1;
    match len.checked_add(mask) {
        Some(value) => {
            proof {
                let (v, a) = (value as int, alignment as int);
                vstd::arithmetic::div_mod::lemma_fundamental_div_mod(v, a);
                vstd::arithmetic::div_mod::lemma_mod_multiples_basic(v / a, a);
                assert(v / a * a == v - v % a) by (nonlinear_arith)
                    requires
                        v == a * (v / a) + v % a,
                ;
            }
            Ok(value / alignment * alignment)
        },
        None => Err(StorageError::invalid_argument("direct I/O length overflows usize")),
    }
}

impl ResolvedDurableLowLevelIoBackend {
    /// How many bytes an append of `logical_len` bytes takes in the file.
    pub fn physical_append_len(self, logical_len: u64) -> (result: Result<u64, StorageError>)
        requires
            self matches ResolvedDurableLowLevelIoBackend::DirectIo { alignment } ==> alignment > 0,
        ensures
            self == ResolvedDurableLowLevelIoBackend::Filesystem ==> result == Ok::<
                u64,
                StorageError,
            >(logical_len),
            self matches ResolvedDurableLowLevelIoBackend::DirectIo { alignment } ==> (result is Ok
                <==> logical_len + alignment - 1 <= usize::MAX) && (result matches Ok(len) ==> len
                == aligned_up(logical_len as int, alignment as int)),
            result matches Err(error) ==> error is InvalidArgument,
    {
        match self {
            ResolvedDurableLowLevelIoBackend::Filesystem => Ok(logical_len),
            ResolvedDurableLowLevelIoBackend::DirectIo { alignment } => {
                if logical_len > usize::MAX as u64 {
                    return Err(StorageError::invalid_argument("direct I/O length overflows usize"));
                }
                match aligned_len(logical_len as usize, alignment) {
                    Ok(len) => Ok(len as u64),
                    Err(error) => Err(error),
                }
            },
        }
    }
}

/// How many zero bytes bring a file to a whole number of units.
pub fn padding_to_alignment(len: u64, alignment: u64) -> (padding: u64)
    requires
        alignment > 0,
    ensures
        padding < alignment,
        (len + padding) % alignment as int == 0,
{
    let remainder: u64 = len % alignment;
    if remainder == 0 {
        0
    } else {
        proof {
            let (l, a) = (len as int, alignment as int);
            vstd::arithmetic::div_mod::lemma_fundamental_div_mod(l, a);
            assert(l + (a - l % a) == (l / a + 1) * a) by (nonlinear_arith)
                requires
                    l == a * (l / a) + l % a,
            ;
            vstd::arithmetic::div_mod::lemma_mod_multiples_basic(l / a + 1, a);
        }
        alignment - remainder
    }
}

/// The padded image of the chunks of one append: all bytes in order, then zeros
/// up to the physical length.
pub fn padded_append(chunks: &Vec<Vec<u8>>, alignment: usize) -> (result: Result<
    Vec<u8>,
    StorageError,
>)
    requires
        alignment > 0,
    ensures
        result is Ok <==> joined(chunks@).len() == 0 || joined(chunks@).len() + alignment - 1
            <= usize::MAX,
        result matches Ok(image) ==> image@.len() == (if joined(chunks@).len() == 0 {
            0
        } else {
            aligned_up(joined(chunks@).len() as int, alignment as int)
        }) && image@.take(joined(chunks@).len() as int) == joined(chunks@) && forall|i: int|
            joined(chunks@).len() <= i < image@.len() ==> image@[i] == 0,
        result matches Err(error) ==> error is InvalidArgument,
{
    let mut image: Vec<u8> = Vec::new();
    let mut i: usize = 0;
    assert(chunks@.take(0) =~= Seq::<Vec<u8>>::empty());
    while i < chunks.len()
        invariant
            i <= chunks@.len(),
            image@ == joined(chunks@.take(i as int)),
        decreases chunks@.len() - i,
    {
        assert(chunks@.take(i + 1).drop_last() =~= chunks@.take(i as int));
        image.extend_from_slice(chunks[i].as_slice());
        assert(image@ =~= joined(chunks@.take(i + 1)));
        i = i + 1;
    }
    assert(chunks@.take(chunks@.len() as int) =~= chunks@);
    let logical_len: usize = image.len();
    if logical_len == 0 {
        assert(image@.take(0) =~= joined(chunks@));
        return Ok(image);
    }
    match aligned_len(logical_len, alignment) {
        Ok(physical_len) => {
            image.resize(physical_len, 0);
            assert(image@.take(logical_len as int) =~= joined(chunks@));
            Ok(image)
        },
        Err(error) => Err(error),
    }
}

/// The bytes of all chunks in order.
pub open spec fn joined(chunks: Seq<Vec<u8>>) -> Seq<u8>
    decreases chunks.len(),
{
    if chunks.len() == 0 {
        seq![]
    } else {
        joined(chunks.drop_last()) + chunks.last()@
    }
}

/// How far a direct write has come.
#[derive(Clone, Copy, Debug, PartialEq, Eq, Structural)]
pub struct DirectWrite {
    pub completed: usize,
    pub unaligned_short_retries: u8,
}

impl DirectWrite {
    /// What a report of `written` bytes for the remaining ones leads to. An
    /// aligned report moves on, an unaligned one is tried again from the same
    /// place, and a report that cannot be true or too many unaligned ones in a
    /// row end the write.
    pub open spec fn after(
        self,
        total: int,
        alignment: int,
        written: int,
    ) -> Result<DirectWrite, StorageError> {
        if written == 0 {
            Err(StorageError::Unavailable { message: "direct I/O write made no progress" })
        } else if written > total - self.completed {
            Err(StorageError::Unavailable { message: "direct I/O write reported too many bytes" })
        } else if written % alignment == 0 {
            Ok(
                DirectWrite {
                    completed: (self.completed + written) as usize,
                    unaligned_short_retries: 0,
                },
            )
        } else if self.unaligned_short_retries + 1 >= DIRECT_IO_MAX_UNALIGNED_SHORT_WRITES {
            Err(
                StorageError::Unavailable {
                    message: "direct I/O write repeatedly returned unaligned short writes",
                },
            )
        } else {
            Ok(
                DirectWrite {
                    completed: self.completed,
                    unaligned_short_retries: (self.unaligned_short_retries + 1) as u8,
                },
            )
        }
    }

    pub fn start() -> (write: DirectWrite)
        ensures
            write == (DirectWrite { completed: 0, unaligned_short_retries: 0 }),
    {
        DirectWrite { completed: 0, unaligned_short_retries: 0 }
    }

    /// Takes in a report of how much was written.
    pub fn observe(self, total: usize, alignment: usize, written: usize) -> (result: Result<
        DirectWrite,
        StorageError,
    >)
        requires
            self.completed <= total,
            alignment > 0,
        ensures
            result == self.after(total as int, alignment as int, written as int),
    {
        if written == 0 {
            return Err(StorageError::unavailable("direct I/O write made no progress"));
        }
        if written > total - self.completed {
            return Err(StorageError::unavailable("direct I/O write reported too many bytes"));
        }
        if written % alignment == 0 {
            return Ok(
                DirectWrite { completed: self.completed + written, unaligned_short_retries: 0 },
            );
        }
        let retries: u8 = self.unaligned_short_retries.saturating_add(1);
        if retries >= DIRECT_IO_MAX_UNALIGNED_SHORT_WRITES {
            return Err(
                StorageError::unavailable(
                    "direct I/O write repeatedly returned unaligned short writes",
                ),
            );
        }
        Ok(DirectWrite { completed: self.completed, unaligned_short_retries: retries })
    }
}

/// A direct write stands at a whole number of units whatever is reported, and
/// each report that does not end it moves it on or uses up one retry.
pub proof fn law_direct_write_advances(
    write: DirectWrite,
    total: int,
    alignment: int,
    written: int,
)
    requires
        alignment > 0,
        0 <= write.completed <= total <= usize::MAX,
        write.completed as int % alignment == 0,
        write.unaligned_short_retries < DIRECT_IO_MAX_UNALIGNED_SHORT_WRITES,
        written >= 0,
    ensures
        write.after(total, alignment, written) matches Ok(next) ==> {
            &&& next.completed <= total
            &&& next.completed as int % alignment == 0
            &&& next.unaligned_short_retries < DIRECT_IO_MAX_UNALIGNED_SHORT_WRITES
            &&& next.completed > write.completed || (next.completed == write.completed
                && next.unaligned_short_retries == write.unaligned_short_retries + 1)
        },
{
    if written % alignment == 0 {
        vstd::arithmetic::div_mod::lemma_mod_adds(write.completed as int, written, alignment);
    }
}

/// Whether what is handed over is the rest of the bytes, from a whole number of
/// units on, for the place that it has.
pub open spec fn hands_rest(
    bytes: Seq<u8>,
    offset: u64,
    alignment: usize,
    chunk: Seq<u8>,
    chunk_offset: u64,
) -> bool {
    &&& offset <= chunk_offset < offset + bytes.len()
    &&& (chunk_offset - offset) % alignment as int == 0
    &&& chunk == bytes.subrange(chunk_offset - offset, bytes.len() as int)
}

/// Writes all of `bytes` at `offset` through a function that may write less
/// than it is asked to. Each time it is handed the rest of the bytes, for the
/// place that the rest has; whether the write goes on follows from each report by
/// `DirectWrite::after`.
pub fn write_all_at_with<F>(
    bytes: &[u8],
    offset: u64,
    alignment: usize,
    mut write_at: F,
) -> (result: Result<(), StorageError>) where F: FnMut(&[u8], u64) -> Result<usize, StorageError>
    requires
        forall|f: F, chunk: &[u8], chunk_offset: u64|
            hands_rest(bytes@, offset, alignment, chunk@, chunk_offset) ==> #[trigger] f.requires(
                (chunk, chunk_offset),
            ),
    ensures
        !is_power_of_two(alignment as nat) ==> (result matches Err(error) && error
            is InvalidArgument),
        is_power_of_two(alignment as nat) && bytes@.len() == 0 ==> result is Ok,
        is_power_of_two(alignment as nat) && bytes@.len() as int % alignment as int != 0
            ==> result is Err,
        is_power_of_two(alignment as nat) && bytes@.len() as int % alignment as int == 0 && offset
            + bytes@.len() <= u64::MAX && (forall|
            f: F,
            chunk: &[u8],
            chunk_offset: u64,
            report: Result<usize, StorageError>,
        | #[trigger]
            f.ensures((chunk, chunk_offset), report) ==> (report matches Ok(written) && written
                == chunk@.len())) ==> result is Ok,
        bytes@.len() > 0 && (forall|
            f: F,
            chunk: &[u8],
            chunk_offset: u64,
            report: Result<usize, StorageError>,
        | #[trigger]
            f.ensures((chunk, chunk_offset), report) ==> report is Err) ==> result is Err,
{
    if !power_of_two(alignment as u64) {
        return Err(
            StorageError::invalid_argument("direct I/O alignment must be a nonzero power of two"),
        );
    }
    let total: usize = bytes.len();
    let mut write = DirectWrite::start();
    let ghost obliging = bytes@.len() as int % alignment as int == 0 && offset + bytes@.len()
        <= u64::MAX && (forall|
        f: F,
        chunk: &[u8],
        chunk_offset: u64,
        report: Result<usize, StorageError>,
    | #[trigger]
        f.ensures((chunk, chunk_offset), report) ==> (report matches Ok(written) && written
            == chunk@.len()));
    let ghost failing = bytes@.len() > 0 && (forall|
        f: F,
        chunk: &[u8],
        chunk_offset: u64,
        report: Result<usize, StorageError>,
    | #[trigger]
        f.ensures((chunk, chunk_offset), report) ==> report is Err);
    proof {
        vstd::arithmetic::div_mod::lemma_small_mod(0, alignment as nat);
    }
    while write.completed < total
        invariant
            obliging == (bytes@.len() as int % alignment as int == 0 && offset + bytes@.len()
                <= u64::MAX && (forall|
                f: F,
                chunk: &[u8],
                chunk_offset: u64,
                report: Result<usize, StorageError>,
            | #[trigger]
                f.ensures((chunk, chunk_offset), report) ==> (report matches Ok(written) && written
                    == chunk@.len()))),
            failing == (bytes@.len() > 0 && (forall|
                f: F,
                chunk: &[u8],
                chunk_offset: u64,
                report: Result<usize, StorageError>,
            | #[trigger]
                f.ensures((chunk, chunk_offset), report) ==> report is Err)),
            failing ==> write.completed == 0,
            obliging ==> write.completed == 0 || write.completed == total,
            write.completed as int % alignment as int == 0,
            total == bytes@.len(),
            write.completed <= total,
            alignment > 0,
            is_power_of_two(alignment as nat),
            write.unaligned_short_retries < DIRECT_IO_MAX_UNALIGNED_SHORT_WRITES,
            forall|f: F, chunk: &[u8], chunk_offset: u64|
                hands_rest(bytes@, offset, alignment, chunk@, chunk_offset) ==> #[trigger] f.requires(
                    (chunk, chunk_offset),
                ),
        decreases total - write.completed,
                DIRECT_IO_MAX_UNALIGNED_SHORT_WRITES - write.unaligned_short_retries,
    {
        let chunk_offset: u64 = match offset.checked_add(write.completed as u64) {
            Some(chunk_offset) => chunk_offset,
            None => return Err(StorageError::invalid_argument("direct I/O offset overflows")),
        };
        let chunk = vstd::slice::slice_subrange(bytes, write.completed, total);
        let written: usize = match write_at(chunk, chunk_offset) {
            Ok(written) => written,
            Err(error) => return Err(error),
        };
        proof {
            vstd::arithmetic::div_mod::lemma_small_mod(0, alignment as nat);
            if written as int % alignment as int == 0 {
                vstd::arithmetic::div_mod::lemma_add_mod_noop(
                    write.completed as int,
                    written as int,
                    alignment as int,
                );
            }
        }
        write = match write.observe(total, alignment, written) {
            Ok(next) => next,
            Err(error) => return Err(error),
        };
    }
    Ok(())
}

/// Chunks are written one behind another: the bytes of two lists of chunks are
/// those of the first, then those of the second, and one chunk is its own bytes.
pub proof fn law_chunks_are_joined_in_order(first: Seq<Vec<u8>>, second: Seq<Vec<u8>>)
    ensures
        joined(first + second) == joined(first) + joined(second),
        first.len() == 1 ==> joined(first) == first[0]@,
    decreases second.len(),
{
    if second.len() == 0 {
        assert(first + second =~= first);
        assert(joined(first) + joined(second) =~= joined(first));
    } else {
        assert((first + second).drop_last() =~= first + second.drop_last());
        assert((first + second).last() == second.last());
        law_chunks_are_joined_in_order(first, second.drop_last());
        assert(joined(first + second) =~= joined(first) + joined(second));
    }
    if first.len() == 1 {
        assert(first.drop_last().len() == 0);
        assert(joined(first.drop_last()) =~= Seq::<u8>::empty());
        assert(joined(first) =~= first[0]@);
    }
}

/// The numbers that pass as alignments are the powers of two.
pub proof fn law_alignments_are_powers_of_two(value: nat)
    ensures
        is_power_of_two(value) <==> exists|exponent: nat|
            value == #[trigger] vstd::arithmetic::power2::pow2(exponent),
    decreases value,
{
    vstd::arithmetic::power2::lemma2_to64();
    if value == 1 {
        assert(value == vstd::arithmetic::power2::pow2(0));
    } else if value > 1 {
        law_alignments_are_powers_of_two(value / 2);
        if is_power_of_two(value) {
            let half = choose|exponent: nat|
                value / 2 == #[trigger] vstd::arithmetic::power2::pow2(exponent);
            vstd::arithmetic::power2::lemma_pow2_unfold(half + 1);
            assert(value == vstd::arithmetic::power2::pow2(half + 1));
        }
        if exists|exponent: nat| value == #[trigger] vstd::arithmetic::power2::pow2(exponent) {
            let exponent = choose|exponent: nat|
                value == #[trigger] vstd::arithmetic::power2::pow2(exponent);
            vstd::arithmetic::power2::lemma_pow2_unfold(exponent);
            assert(value / 2 == vstd::arithmetic::power2::pow2((exponent - 1) as nat));
        }
    } else {
        assert forall|exponent: nat| value
            != #[trigger] vstd::arithmetic::power2::pow2(exponent) by {
            vstd::arithmetic::power2::lemma_pow2_pos(exponent);
        }
    }
}

} // verus!
