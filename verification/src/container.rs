//! The archive: a fixed header, then a sequence of runs.
//!
//! The header is four little-endian 64-bit fields: a magic number, the
//! format version, the block size and the number of blocks of the image. A
//! run is stored as its length in bytes, as a little-endian 64-bit number,
//! followed by that many bytes. The body ends where no complete length field
//! is left.

use crate::block::BLOCK_SIZE;
use crate::bytes::{
    append_bytes, lemma_u64_le_prefix, lemma_u64_le_round_trip, read_u64_le, spec_u64_from_le,
    spec_u64_to_le, write_u64_le,
};
use vstd::prelude::*;
use vstd::slice::slice_subrange;

verus! {

/// The number that every archive starts with.
pub const MAGIC: u64 = 0xa537a0aa6309ef77;

/// The version of the archive format.
pub const PACK_VERSION: u64 = 3;

/// Bytes in a header.
pub const HEADER_BYTES: usize = 32;

/// Bytes in the length field of a run.
pub const LENGTH_BYTES: usize = 8;

/// Why an archive was refused.
#[derive(Clone, Copy, Debug, PartialEq, Eq, Structural)]
pub enum FormatError {
    /// The input ends inside the header.
    TruncatedHeader,
    /// The first field is not the magic number.
    BadMagic,
    /// The archive was written in another version of the format.
    BadVersion,
    /// The archive was written for another block size.
    BadBlockSize,
    /// A length field is there, but fewer bytes follow than it announces.
    TruncatedRun,
}

/// The header of an archive of an image of `nr_blocks` blocks.
pub open spec fn spec_header(nr_blocks: u64) -> Seq<u8> {
    spec_header_of(MAGIC, PACK_VERSION, BLOCK_SIZE, nr_blocks)
}

/// Four fields laid out as a header.
pub open spec fn spec_header_of(magic: u64, version: u64, block_size: u64, nr_blocks: u64) -> Seq<
    u8,
> {
    spec_u64_to_le(magic) + spec_u64_to_le(version) + spec_u64_to_le(block_size) + spec_u64_to_le(
        nr_blocks,
    )
}

/// The `k`-th 64-bit field of `bytes`.
pub open spec fn spec_field(bytes: Seq<u8>, k: int) -> u64 {
    spec_u64_from_le(bytes.subrange(8 * k, 8 * k + 8))
}

/// What reading a header from the start of `bytes` gives. The fields are
/// taken in order, and the first that is missing or wrong decides.
pub open spec fn spec_read_header(bytes: Seq<u8>) -> Result<u64, FormatError> {
    if bytes.len() < 8 {
        Err(FormatError::TruncatedHeader)
    } else if spec_field(bytes, 0) != MAGIC {
        Err(FormatError::BadMagic)
    } else if bytes.len() < 16 {
        Err(FormatError::TruncatedHeader)
    } else if spec_field(bytes, 1) != PACK_VERSION {
        Err(FormatError::BadVersion)
    } else if bytes.len() < 24 {
        Err(FormatError::TruncatedHeader)
    } else if spec_field(bytes, 2) != BLOCK_SIZE {
        Err(FormatError::BadBlockSize)
    } else if bytes.len() < 32 {
        Err(FormatError::TruncatedHeader)
    } else {
        Ok(spec_field(bytes, 3))
    }
}

/// A run as it is stored: its length, then its bytes.
pub open spec fn spec_frame(run: Seq<u8>) -> Seq<u8> {
    spec_u64_to_le(run.len() as u64) + run
}

/// The body that holds `runs` in this order.
pub open spec fn spec_body(runs: Seq<Seq<u8>>) -> Seq<u8>
    decreases runs.len(),
{
    if runs.len() == 0 {
        Seq::empty()
    } else {
        spec_frame(runs.first()) + spec_body(runs.drop_first())
    }
}

/// Where the first run of `rest` ends, counted from the start of `rest`:
/// `None` where no complete length field is left, an error where the run is
/// cut short.
pub open spec fn spec_first_run(rest: Seq<u8>) -> Result<Option<int>, FormatError> {
    if rest.len() < 8 {
        Ok(None)
    } else if rest.len() - 8 < spec_u64_from_le(rest) {
        Err(FormatError::TruncatedRun)
    } else {
        Ok(Some(8 + spec_u64_from_le(rest)))
    }
}

/// The runs that `body` holds, in the order in which they are stored.
pub open spec fn spec_split_runs(body: Seq<u8>) -> Result<Seq<Seq<u8>>, FormatError>
    decreases body.len(),
{
    match spec_first_run(body) {
        Err(e) => Err(e),
        Ok(None) => Ok(Seq::empty()),
        Ok(Some(end)) => match spec_split_runs(body.subrange(end, body.len() as int)) {
            Err(e) => Err(e),
            Ok(rest) => Ok(seq![body.subrange(8, end)] + rest),
        },
    }
}

/// `found`, then what `later` holds.
pub open spec fn spec_runs_then(found: Seq<Seq<u8>>, later: Result<Seq<Seq<u8>>, FormatError>)
    -> Result<Seq<Seq<u8>>, FormatError> {
    match later {
        Err(e) => Err(e),
        Ok(rest) => Ok(found + rest),
    }
}

/// The contents of each buffer of `runs`.
pub open spec fn spec_run_views(runs: Seq<Vec<u8>>) -> Seq<Seq<u8>> {
    Seq::new(runs.len(), |i: int| runs[i]@)
}

/// Appends the header of an archive of `nr_blocks` blocks to `w`.
pub fn write_header(w: &mut Vec<u8>, nr_blocks: u64)
    ensures
        final(w)@ == old(w)@ + spec_header(nr_blocks),
{
    write_u64_le(w, MAGIC);
    write_u64_le(w, PACK_VERSION);
    write_u64_le(w, BLOCK_SIZE);
    write_u64_le(w, nr_blocks);
}

/// Reads the `k`-th field of a header that is long enough to hold it.
fn read_field(r: &[u8], k: usize) -> (v: u64)
    requires
        k < 4,
        r@.len() >= 8 * k + 8,
    ensures
        v == spec_field(r@, k as int),
{
    read_u64_le(slice_subrange(r, 8 * k, 8 * k + 8))
}

/// Reads and checks the header at the start of `r`, and returns the number
/// of blocks of the image.
pub fn read_header(r: &[u8]) -> (res: Result<u64, FormatError>)
    ensures
        res == spec_read_header(r@),
{
    if r.len() < 8 {
        return Err(FormatError::TruncatedHeader);
    }
    if read_field(r, 0) != MAGIC {
        return Err(FormatError::BadMagic);
    }
    if r.len() < 16 {
        return Err(FormatError::TruncatedHeader);
    }
    if read_field(r, 1) != PACK_VERSION {
        return Err(FormatError::BadVersion);
    }
    if r.len() < 24 {
        return Err(FormatError::TruncatedHeader);
    }
    if read_field(r, 2) != BLOCK_SIZE {
        return Err(FormatError::BadBlockSize);
    }
    if r.len() < HEADER_BYTES {
        return Err(FormatError::TruncatedHeader);
    }
    Ok(read_field(r, 3))
}

/// Stores a run: its length, then its bytes.
pub fn frame_run(run: &[u8]) -> (f: Vec<u8>)
    ensures
        f@ == spec_frame(run@),
{
    let mut f: Vec<u8> = Vec::new();
    write_u64_le(&mut f, run.len() as u64);
    append_bytes(&mut f, run);
    f
}

/// Reads a length field: `None` where `field` is too short to hold one.
pub fn run_length(field: &[u8]) -> (r: Option<u64>)
    ensures
        r == (if field@.len() < 8 {
            None
        } else {
            Some(spec_u64_from_le(field@))
        }),
{
    if field.len() < LENGTH_BYTES {
        None
    } else {
        Some(read_u64_le(field))
    }
}

/// Tells whether a run is there in full, where its length field announces
/// `len` bytes and `got` bytes follow the field: a run that is cut short is
/// an error.
pub fn check_run(len: u64, got: usize) -> (res: Result<(), FormatError>)
    ensures
        res == (if got < len {
            Err::<(), FormatError>(FormatError::TruncatedRun)
        } else {
            Ok(())
        }),
{
    if (got as u64) < len {
        Err(FormatError::TruncatedRun)
    } else {
        Ok(())
    }
}

/// Finds the run that starts at `pos`: where its bytes start and end, or
/// `None` at the end of the body.
pub fn next_run(body: &[u8], pos: usize) -> (res: Result<Option<(usize, usize)>, FormatError>)
    requires
        pos <= body@.len(),
    ensures
        match res {
            Err(e) => spec_first_run(body@.subrange(pos as int, body@.len() as int)) == Err::<
                Option<int>,
                FormatError,
            >(e),
            Ok(None) => spec_first_run(body@.subrange(pos as int, body@.len() as int)) == Ok::<
                Option<int>,
                FormatError,
            >(None),
            Ok(Some((start, end))) => {
                &&& spec_first_run(body@.subrange(pos as int, body@.len() as int)) == Ok::<
                    Option<int>,
                    FormatError,
                >(Some(end - pos))
                &&& start == pos + 8
                &&& start <= end <= body@.len()
            },
        },
{
    let rest = slice_subrange(body, pos, body.len());
    match run_length(rest) {
        None => Ok(None),
        Some(len) => {
            let left = rest.len() - LENGTH_BYTES;
            match check_run(len, left) {
                Err(e) => Err(e),
                Ok(_) => Ok(Some((pos + LENGTH_BYTES, pos + LENGTH_BYTES + len as usize))),
            }
        },
    }
}

/// Splits a body into its runs.
pub fn split_runs(body: &[u8]) -> (res: Result<Vec<Vec<u8>>, FormatError>)
    ensures
        match res {
            Ok(runs) => spec_split_runs(body@) == Ok::<Seq<Seq<u8>>, FormatError>(
                spec_run_views(runs@),
            ),
            Err(e) => spec_split_runs(body@) == Err::<Seq<Seq<u8>>, FormatError>(e),
        },
{
    let mut runs: Vec<Vec<u8>> = Vec::new();
    let mut pos: usize = 0;
    proof {
        assert(body@.subrange(0, body@.len() as int) =~= body@);
        assert(spec_run_views(runs@) =~= Seq::<Seq<u8>>::empty());
        if let Ok(all) = spec_split_runs(body@) {
            assert(Seq::<Seq<u8>>::empty() + all =~= all);
        }
    }
    loop
        invariant
            pos <= body@.len(),
            spec_split_runs(body@) == spec_runs_then(
                spec_run_views(runs@),
                spec_split_runs(body@.subrange(pos as int, body@.len() as int)),
            ),
        decreases body@.len() - pos,
    {
        let ghost rest = body@.subrange(pos as int, body@.len() as int);
        let ghost found = spec_run_views(runs@);
        match next_run(body, pos) {
            Err(e) => {
                return Err(e);
            },
            Ok(None) => {
                assert(found + Seq::<Seq<u8>>::empty() =~= found);
                return Ok(runs);
            },
            Ok(Some((start, end))) => {
                let ghost stop = end - pos;
                let mut run: Vec<u8> = Vec::new();
                append_bytes(&mut run, slice_subrange(body, start, end));
                proof {
                    assert(run@ =~= rest.subrange(8, stop));
                    assert(rest.subrange(stop, rest.len() as int) =~= body@.subrange(
                        end as int,
                        body@.len() as int,
                    ));
                    let later = spec_split_runs(body@.subrange(end as int, body@.len() as int));
                    assert(spec_run_views(runs@.push(run)) =~= found + seq![run@]);
                    if let Ok(more) = later {
                        assert((found + seq![run@]) + more =~= found + (seq![run@] + more));
                    }
                }
                runs.push(run);
                pos = end;
            },
        }
    }
}

/// Reading back a header that was written gives the number of blocks that
/// was written, whatever follows the header.
pub proof fn lemma_header_round_trip(nr_blocks: u64, rest: Seq<u8>)
    ensures
        spec_read_header(spec_header(nr_blocks) + rest) == Ok::<u64, FormatError>(nr_blocks),
{
    lemma_header_fields(MAGIC, PACK_VERSION, BLOCK_SIZE, nr_blocks, rest);
}

/// A header is accepted only with the right magic number, version and block
/// size: with any other value in one of these fields it is refused, and the
/// first such field names the error.
pub proof fn lemma_header_rejects_altered(
    magic: u64,
    version: u64,
    block_size: u64,
    nr_blocks: u64,
    rest: Seq<u8>,
)
    ensures
        spec_read_header(spec_header_of(magic, version, block_size, nr_blocks) + rest) == (if magic
            != MAGIC {
            Err::<u64, FormatError>(FormatError::BadMagic)
        } else if version != PACK_VERSION {
            Err(FormatError::BadVersion)
        } else if block_size != BLOCK_SIZE {
            Err(FormatError::BadBlockSize)
        } else {
            Ok(nr_blocks)
        }),
{
    lemma_header_fields(magic, version, block_size, nr_blocks, rest);
}

/// The fields of a header are the numbers it was laid out from.
proof fn lemma_header_fields(
    magic: u64,
    version: u64,
    block_size: u64,
    nr_blocks: u64,
    rest: Seq<u8>,
)
    ensures
        ({
            let h = spec_header_of(magic, version, block_size, nr_blocks) + rest;
            &&& h.len() >= 32
            &&& spec_field(h, 0) == magic
            &&& spec_field(h, 1) == version
            &&& spec_field(h, 2) == block_size
            &&& spec_field(h, 3) == nr_blocks
        }),
{
    let h = spec_header_of(magic, version, block_size, nr_blocks) + rest;
    lemma_u64_le_round_trip(magic);
    lemma_u64_le_round_trip(version);
    lemma_u64_le_round_trip(block_size);
    lemma_u64_le_round_trip(nr_blocks);
    assert(h.subrange(0, 8) =~= spec_u64_to_le(magic));
    assert(h.subrange(8, 16) =~= spec_u64_to_le(version));
    assert(h.subrange(16, 24) =~= spec_u64_to_le(block_size));
    assert(h.subrange(24, 32) =~= spec_u64_to_le(nr_blocks));
}

/// Splitting the body that holds `runs` gives `runs` back.
pub proof fn lemma_body_round_trip(runs: Seq<Seq<u8>>)
    requires
        forall|i: int| 0 <= i < runs.len() ==> (#[trigger] runs[i]).len() <= u64::MAX,
    ensures
        spec_split_runs(spec_body(runs)) == Ok::<Seq<Seq<u8>>, FormatError>(runs),
    decreases runs.len(),
{
    if runs.len() == 0 {
        assert(runs =~= Seq::<Seq<u8>>::empty());
    } else {
        let first = runs.first();
        let later = runs.drop_first();
        let body = spec_body(runs);
        let n = first.len() as u64;
        let tail = first + spec_body(later);
        assert(body =~= spec_u64_to_le(n) + tail);
        lemma_u64_le_prefix(n, tail);
        assert(spec_first_run(body) == Ok::<Option<int>, FormatError>(Some(8 + n)));
        assert(body.subrange(8, 8 + n) =~= first);
        assert(body.subrange(8 + n, body.len() as int) =~= spec_body(later));
        assert forall|i: int| 0 <= i < later.len() implies (#[trigger] later[i]).len()
            <= u64::MAX by {
            assert(later[i] == runs[i + 1]);
        }
        lemma_body_round_trip(later);
        assert(seq![first] + later =~= runs);
    }
}

/// A header is 32 bytes long.
pub proof fn lemma_header_len(nr_blocks: u64)
    ensures
        spec_header(nr_blocks).len() == 32,
{
    lemma_u64_le_round_trip(MAGIC);
    lemma_u64_le_round_trip(PACK_VERSION);
    lemma_u64_le_round_trip(BLOCK_SIZE);
    lemma_u64_le_round_trip(nr_blocks);
}

/// A body that holds one more run is longer by that run as it is stored.
pub proof fn lemma_body_push(runs: Seq<Seq<u8>>, run: Seq<u8>)
    ensures
        spec_body(runs.push(run)) == spec_body(runs) + spec_frame(run),
    decreases runs.len(),
{
    let more = runs.push(run);
    if runs.len() == 0 {
        assert(more.drop_first() =~= Seq::<Seq<u8>>::empty());
        assert(more.first() == run);
        assert(spec_body(more.drop_first()) =~= Seq::<u8>::empty());
        assert(spec_body(runs) =~= Seq::<u8>::empty());
        assert(spec_body(more) =~= spec_frame(run));
        assert(spec_body(runs) + spec_frame(run) =~= spec_frame(run));
    } else {
        assert(more.first() == runs.first());
        assert(more.drop_first() =~= runs.drop_first().push(run));
        lemma_body_push(runs.drop_first(), run);
        assert(spec_body(more) =~= spec_body(runs) + spec_frame(run));
    }
}

/// What follows the length field of a stored run is the run.
pub proof fn lemma_frame_payload(run: Seq<u8>)
    ensures
        spec_frame(run).len() == 8 + run.len(),
        spec_frame(run).subrange(8, spec_frame(run).len() as int) == run,
{
    lemma_u64_le_round_trip(run.len() as u64);
    assert(spec_frame(run).subrange(8, spec_frame(run).len() as int) =~= run);
}

} // verus!
