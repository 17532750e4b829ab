//! The unpack engine: the dispatcher that hands the runs of an archive to
//! the workers, and one worker's way from a run to the blocks that are
//! written to the image.
//!
//! A worker inflates a run and reads its records in order: a block number,
//! then the short form of the block, which the codec turns back into the
//! block. The block must classify as metadata, as it did when it was packed.
//! Blocks gather in the worker; with the 32nd they leave as a batch of
//! writes. What is left when there are no more runs leaves as a last batch.

use crate::block::{
    block_offset, metadata_block_type, spec_block_type, BlockType, BLOCK_BYTES, BLOCK_SIZE,
    MAX_BLOCKS,
};
use crate::bytes::{lemma_u64_from_le_prefix, lemma_u64_le_prefix, read_u64_le, spec_u64_from_le};
use crate::codec::{BlockCodec, DecodeError, EncodeError, Reconstructed};
use crate::pack::{spec_encoded, spec_record, spec_stream, Record};
use crate::zlib::{inflate, spec_inflate};
use vstd::arithmetic::div_mod::{
    lemma_fundamental_div_mod, lemma_fundamental_div_mod_converse, lemma_small_mod,
};
use vstd::prelude::*;
use vstd::slice::slice_subrange;

verus! {

/// The number of blocks in a full batch of writes.
pub const FLUSH_BLOCKS: usize = 32;

/// A block as a worker takes it: its number and its bytes.
pub type Block = (u64, Seq<u8>);

/// Why a worker stopped unpacking.
#[derive(Clone, Copy, Debug, PartialEq, Eq, Structural)]
pub enum UnpackError {
    /// A run is no complete zlib stream.
    CorruptRun,
    /// The decoder refused a record.
    Reconstruct(DecodeError),
    /// The decoder claims to have used more bytes than the run holds.
    RecordOverrun,
    /// A run ends inside the block number of a record.
    TruncatedRecord,
    /// A block that was rebuilt does not classify as metadata.
    UnknownBlock,
    /// A block number lies beyond what a 64-bit offset can reach.
    BlockOutOfRange,
}

/// One write to the image: `data`, at `offset` bytes from its start.
#[derive(Debug, PartialEq, Eq)]
pub struct BlockWrite {
    pub offset: u64,
    pub data: Vec<u8>,
}

impl View for BlockWrite {
    type V = (u64, Seq<u8>);

    open spec fn view(&self) -> (u64, Seq<u8>) {
        (self.offset, self.data@)
    }
}

/// The write that puts a block in its place.
pub open spec fn spec_write(block: Block) -> (u64, Seq<u8>) {
    ((block.0 * BLOCK_SIZE) as u64, block.1)
}

/// The writes of a batch that holds `blocks`: the block taken last is
/// written first.
pub open spec fn spec_writes(blocks: Seq<Block>) -> Seq<(u64, Seq<u8>)> {
    Seq::new(blocks.len(), |i: int| spec_write(blocks[blocks.len() - 1 - i]))
}

/// The blocks of the `k`-th full batch of a worker that took `blocks`.
pub open spec fn spec_batch_blocks(blocks: Seq<Block>, k: int) -> Seq<Block> {
    blocks.subrange(k * 32, k * 32 + 32)
}

/// The writes of the `k`-th full batch of a worker that took `blocks`.
pub open spec fn spec_batch(blocks: Seq<Block>, k: int) -> Seq<(u64, Seq<u8>)> {
    spec_writes(spec_batch_blocks(blocks, k))
}

/// What each write of `ws` says.
pub open spec fn spec_write_views(ws: Seq<BlockWrite>) -> Seq<(u64, Seq<u8>)> {
    Seq::new(ws.len(), |i: int| ws[i]@)
}

/// The number and the bytes of each block of `blocks`.
pub open spec fn spec_block_views(blocks: Seq<(u64, Vec<u8>)>) -> Seq<Block> {
    Seq::new(blocks.len(), |i: int| (blocks[i].0, blocks[i].1@))
}

/// What the record at the start of `rest` gives: the block number that its
/// first eight bytes hold, nothing where no byte is left, and an error where
/// fewer than eight are.
pub open spec fn spec_next_record(rest: Seq<u8>) -> Result<Option<u64>, UnpackError> {
    if rest.len() == 0 {
        Ok(None)
    } else if rest.len() < 8 {
        Err(UnpackError::TruncatedRecord)
    } else {
        Ok(Some(spec_u64_from_le(rest)))
    }
}

/// A worker takes a block only if it classifies as metadata and its number
/// is within reach.
pub open spec fn spec_block_ok(block: Block) -> bool {
    spec_refusal(block.0, block.1) is None
}

/// The decoder of `codec`, given `source`, rebuilt `block` and used
/// `consumed` bytes.
pub open spec fn spec_rebuilt<C: BlockCodec>(
    codec: &C,
    source: Seq<u8>,
    block: Seq<u8>,
    consumed: int,
) -> bool {
    exists|src: &[u8], r: Reconstructed|
        src@ == source && r.block@ == block && r.consumed == consumed && #[trigger] call_ensures(
            C::reconstruct,
            (codec, src, BLOCK_BYTES),
            Ok::<Reconstructed, DecodeError>(r),
        )
}

/// The decoder of `codec`, given `source`, failed with the error `e`.
pub open spec fn spec_not_rebuilt<C: BlockCodec>(
    codec: &C,
    source: Seq<u8>,
    e: DecodeError,
) -> bool {
    exists|src: &[u8]|
        src@ == source && #[trigger] call_ensures(
            C::reconstruct,
            (codec, src, BLOCK_BYTES),
            Err::<Reconstructed, DecodeError>(e),
        )
}

/// Why a worker refuses a block: `None` where it takes the block.
pub open spec fn spec_refusal(index: u64, block: Seq<u8>) -> Option<UnpackError> {
    if spec_block_type(block) == BlockType::Unknown {
        Some(UnpackError::UnknownBlock)
    } else if index > MAX_BLOCKS {
        Some(UnpackError::BlockOutOfRange)
    } else {
        None
    }
}

/// Why a worker refuses what the decoder made of a record, where `left`
/// bytes of the run were left for the decoder: `None` where it takes the
/// block.
pub open spec fn spec_verdict(index: u64, block: Seq<u8>, consumed: int, left: int) -> Option<
    UnpackError,
> {
    if consumed > left {
        Some(UnpackError::RecordOverrun)
    } else {
        spec_refusal(index, block)
    }
}

/// The record that starts at `at` in `stream` holds `block` and ends at
/// `end`: its first eight bytes are the number of the block, the decoder
/// made the block of what follows them, and the worker took it.
pub open spec fn spec_record_at<C: BlockCodec>(
    codec: &C,
    stream: Seq<u8>,
    at: int,
    block: Block,
    end: int,
) -> bool {
    let rest = stream.subrange(at + 8, stream.len() as int);
    &&& 0 <= at
    &&& at + 8 <= end <= stream.len()
    &&& block.0 == spec_u64_from_le(stream.subrange(at, stream.len() as int))
    &&& spec_rebuilt(codec, rest, block.1, end - at - 8)
    &&& spec_verdict(block.0, block.1, end - at - 8, rest.len() as int) is None
}

/// The records of `stream` from its start up to `end` hold `blocks`, in
/// this order and with nothing between them.
pub open spec fn spec_parsed<C: BlockCodec>(
    codec: &C,
    stream: Seq<u8>,
    blocks: Seq<Block>,
    end: int,
) -> bool
    decreases blocks.len(),
{
    if blocks.len() == 0 {
        end == 0
    } else {
        exists|at: int|
            spec_parsed(codec, stream, blocks.drop_last(), at) && #[trigger] spec_record_at(
                codec,
                stream,
                at,
                blocks.last(),
                end,
            )
    }
}

/// Reading `stream` stopped at `end` with the error `e`: the stream ends
/// there inside a block number, or a record starts there, and the decoder
/// failed on it, or the worker refused what the decoder made of it.
pub open spec fn spec_stopped<C: BlockCodec>(
    codec: &C,
    stream: Seq<u8>,
    end: int,
    e: UnpackError,
) -> bool {
    let index = spec_u64_from_le(stream.subrange(end, stream.len() as int));
    let rest = stream.subrange(end + 8, stream.len() as int);
    &&& 0 <= end <= stream.len()
    &&& match e {
        UnpackError::CorruptRun => false,
        UnpackError::TruncatedRecord => 0 < stream.len() - end < 8,
        UnpackError::Reconstruct(d) => end + 8 <= stream.len() && spec_not_rebuilt(
            codec,
            rest,
            d,
        ),
        _ => end + 8 <= stream.len() && exists|block: Seq<u8>, consumed: int| #[trigger]
            spec_rebuilt(codec, rest, block, consumed) && spec_verdict(
                index,
                block,
                consumed,
                rest.len() as int,
            ) == Some(e),
    }
}

/// Reading `stream` gave `blocks` and ended with `outcome`: the records
/// from the start of the stream hold `blocks`, and after them the stream is
/// at its end, or what follows is what stopped the worker.
pub open spec fn spec_run_read<C: BlockCodec>(
    codec: &C,
    stream: Seq<u8>,
    blocks: Seq<Block>,
    outcome: Result<(), UnpackError>,
) -> bool {
    exists|end: int| #[trigger]
        spec_parsed(codec, stream, blocks, end) && match outcome {
            Ok(_) => end == stream.len(),
            Err(e) => spec_stopped(codec, stream, end, e),
        }
}

/// A worker that unpacks finds each record where the worker that packed put
/// it: in the stream that holds `records`, the `k`-th record starts where
/// the stream of the first `k` records ends, its first eight bytes read as
/// its block number, and its payload follows them.
pub proof fn lemma_record_in_stream(records: Seq<Record>, k: int)
    requires
        0 <= k < records.len(),
    ensures
        ({
            let stream = spec_stream(records);
            let at = spec_stream(records.take(k)).len() as int;
            let payload = records[k].1;
            &&& at + 8 + payload.len() <= stream.len()
            &&& spec_next_record(stream.subrange(at, stream.len() as int)) == Ok::<
                Option<u64>,
                UnpackError,
            >(Some(records[k].0))
            &&& stream.subrange(at + 8, at + 8 + payload.len()) == payload
            &&& spec_stream(records.take(k + 1)).len() == at + 8 + payload.len()
        }),
    decreases records.len(),
{
    let stream = spec_stream(records);
    let front = records.drop_last();
    let last = records.last();
    let head = spec_stream(front);
    lemma_u64_le_prefix(last.0, last.1);
    assert(stream == head + spec_record(last));
    if k == records.len() - 1 {
        assert(records.take(k) =~= front);
        assert(records.take(k + 1) =~= records);
        let at = head.len() as int;
        assert(stream.subrange(at, stream.len() as int) =~= spec_record(last));
        assert(stream.subrange(at + 8, at + 8 + last.1.len()) =~= last.1);
    } else {
        lemma_record_in_stream(front, k);
        assert(front.take(k) =~= records.take(k));
        assert(front.take(k + 1) =~= records.take(k + 1));
        assert(front[k] == records[k]);
        let at = spec_stream(records.take(k)).len() as int;
        let payload = records[k].1;
        let a = head.subrange(at, head.len() as int);
        let b = stream.subrange(at, stream.len() as int);
        assert(a.subrange(0, 8) =~= b.subrange(0, 8));
        lemma_u64_from_le_prefix(a, b);
        assert(stream.subrange(at + 8, at + 8 + payload.len()) =~= head.subrange(
            at + 8,
            at + 8 + payload.len(),
        ));
    }
}

/// The decoder of `codec` undoes its encoder: from bytes that start with a
/// short form that the encoder gave for a metadata block, the decoder
/// rebuilds that block and nothing else, and uses just the short form.
pub open spec fn spec_codec_inverts<C: BlockCodec>(codec: &C) -> bool {
    forall|
        kind: BlockType,
        b: &[u8],
        p: Vec<u8>,
        src: &[u8],
        out: Result<Reconstructed, DecodeError>,
    |
        #![trigger
            call_ensures(C::encode, (codec, kind, b), Ok::<Vec<u8>, EncodeError>(p)),
            call_ensures(C::reconstruct, (codec, src, BLOCK_BYTES), out)
        ]
        call_ensures(C::encode, (codec, kind, b), Ok::<Vec<u8>, EncodeError>(p))
            && kind == spec_block_type(b@) && kind != BlockType::Unknown && p@.is_prefix_of(src@)
            && call_ensures(C::reconstruct, (codec, src, BLOCK_BYTES), out) ==> {
            &&& out is Ok
            &&& out->Ok_0.block@ == b@
            &&& out->Ok_0.consumed == p@.len()
        }
}

/// `record` holds the metadata block `source`: a block number within reach,
/// and a short form that the encoder gave for the block.
pub open spec fn spec_holds<C: BlockCodec>(codec: &C, record: Record, source: Seq<u8>) -> bool {
    &&& record.0 <= MAX_BLOCKS
    &&& spec_block_type(source) != BlockType::Unknown
    &&& spec_encoded(codec, spec_block_type(source), source, record.1)
}

/// The blocks that `records` hold, each with its number.
pub open spec fn spec_held(records: Seq<Record>, sources: Seq<Seq<u8>>) -> Seq<Block> {
    Seq::new(records.len(), |j: int| (records[j].0, sources[j]))
}

/// Where the decoder undoes the encoder, reading the stream of `records`
/// follows the records: what was read up to some place are the blocks of the
/// first records, and the place is where those records end.
proof fn lemma_parse_follows_records<C: BlockCodec>(
    codec: &C,
    records: Seq<Record>,
    sources: Seq<Seq<u8>>,
    blocks: Seq<Block>,
    end: int,
)
    requires
        spec_codec_inverts(codec),
        records.len() == sources.len(),
        forall|j: int|
            0 <= j < records.len() ==> spec_holds(codec, #[trigger] records[j], sources[j]),
        spec_parsed(codec, spec_stream(records), blocks, end),
    ensures
        blocks.len() <= records.len(),
        end == spec_stream(records.take(blocks.len() as int)).len(),
        forall|j: int|
            0 <= j < blocks.len() ==> #[trigger] blocks[j] == spec_held(records, sources)[j],
    decreases blocks.len(),
{
    let stream = spec_stream(records);
    if blocks.len() == 0 {
        assert(records.take(0) =~= Seq::<Record>::empty());
    } else {
        let at = choose|at: int|
            spec_parsed(codec, stream, blocks.drop_last(), at) && #[trigger] spec_record_at(
                codec,
                stream,
                at,
                blocks.last(),
                end,
            );
        let m = blocks.len() - 1;
        lemma_parse_follows_records(codec, records, sources, blocks.drop_last(), at);
        if m == records.len() {
            assert(records.take(m) =~= records);
        }
        lemma_record_in_stream(records, m);
        lemma_decoder_undoes(codec, records, sources, m, blocks.last().1, end - at - 8);
        assert forall|j: int| 0 <= j < blocks.len() implies #[trigger] blocks[j] == spec_held(
            records,
            sources,
        )[j] by {
            if j < m {
                assert(blocks[j] == blocks.drop_last()[j]);
            }
        }
    }
}

/// Where the decoder undoes the encoder, what it makes of the bytes from
/// the payload of the `m`-th record on is the block that the record holds,
/// and it uses just the payload.
proof fn lemma_decoder_undoes<C: BlockCodec>(
    codec: &C,
    records: Seq<Record>,
    sources: Seq<Seq<u8>>,
    m: int,
    block: Seq<u8>,
    consumed: int,
)
    requires
        spec_codec_inverts(codec),
        records.len() == sources.len(),
        0 <= m < records.len(),
        spec_holds(codec, records[m], sources[m]),
        spec_rebuilt(
            codec,
            spec_stream(records).subrange(
                spec_stream(records.take(m)).len() as int + 8,
                spec_stream(records).len() as int,
            ),
            block,
            consumed,
        ),
    ensures
        block == sources[m],
        consumed == records[m].1.len(),
{
    let stream = spec_stream(records);
    let from = spec_stream(records.take(m)).len() as int + 8;
    let rest = stream.subrange(from, stream.len() as int);
    let payload = records[m].1;
    lemma_record_in_stream(records, m);
    assert(rest.subrange(0, payload.len() as int) =~= stream.subrange(from, from + payload.len()));
    assert(payload.is_prefix_of(rest));
    let kind = spec_block_type(sources[m]);
    let (b, p) = choose|b: &[u8], p: Vec<u8>|
        b@ == sources[m] && p@ == payload && #[trigger] call_ensures(
            C::encode,
            (codec, kind, b),
            Ok::<Vec<u8>, EncodeError>(p),
        );
    let (src, r) = choose|src: &[u8], r: Reconstructed|
        src@ == rest && r.block@ == block && r.consumed == consumed && #[trigger] call_ensures(
            C::reconstruct,
            (codec, src, BLOCK_BYTES),
            Ok::<Reconstructed, DecodeError>(r),
        );
    assert(call_ensures(C::encode, (codec, kind, b), Ok::<Vec<u8>, EncodeError>(p)));
    assert(call_ensures(
        C::reconstruct,
        (codec, src, BLOCK_BYTES),
        Ok::<Reconstructed, DecodeError>(r),
    ));
    assert(block =~= sources[m]);
}

/// Where the decoder undoes the encoder, a worker that reads the stream of
/// `records`, each of which holds a metadata block, is not stopped, and the
/// blocks it takes are the blocks that the records hold, in the order of the
/// records.
pub proof fn lemma_run_round_trip<C: BlockCodec>(
    codec: &C,
    records: Seq<Record>,
    sources: Seq<Seq<u8>>,
    blocks: Seq<Block>,
    outcome: Result<(), UnpackError>,
)
    requires
        spec_codec_inverts(codec),
        records.len() == sources.len(),
        forall|j: int|
            0 <= j < records.len() ==> spec_holds(codec, #[trigger] records[j], sources[j]),
        spec_run_read(codec, spec_stream(records), blocks, outcome),
    ensures
        outcome is Ok,
        blocks == spec_held(records, sources),
{
    let stream = spec_stream(records);
    let end = choose|end: int| #[trigger]
        spec_parsed(codec, stream, blocks, end) && match outcome {
            Ok(_) => end == stream.len(),
            Err(e) => spec_stopped(codec, stream, end, e),
        };
    lemma_parse_follows_records(codec, records, sources, blocks, end);
    let m = blocks.len() as int;
    if m < records.len() {
        // The next record is there in full, and the worker takes it.
        lemma_record_in_stream(records, m);
        let rest = stream.subrange(end + 8, stream.len() as int);
        let payload = records[m].1;
        match outcome {
            Ok(_) => {},
            Err(UnpackError::CorruptRun) => {},
            Err(UnpackError::TruncatedRecord) => {},
            Err(UnpackError::Reconstruct(d)) => {
                assert(rest.subrange(0, payload.len() as int) =~= stream.subrange(
                    end + 8,
                    end + 8 + payload.len(),
                ));
                let kind = spec_block_type(sources[m]);
                let (b, p) = choose|b: &[u8], p: Vec<u8>|
                    b@ == sources[m] && p@ == payload && #[trigger] call_ensures(
                        C::encode,
                        (codec, kind, b),
                        Ok::<Vec<u8>, EncodeError>(p),
                    );
                let src = choose|src: &[u8]|
                    src@ == rest && #[trigger] call_ensures(
                        C::reconstruct,
                        (codec, src, BLOCK_BYTES),
                        Err::<Reconstructed, DecodeError>(d),
                    );
                assert(call_ensures(C::encode, (codec, kind, b), Ok::<Vec<u8>, EncodeError>(p)));
                assert(call_ensures(
                    C::reconstruct,
                    (codec, src, BLOCK_BYTES),
                    Err::<Reconstructed, DecodeError>(d),
                ));
                assert(false);
            },
            Err(e) => {
                let index = spec_u64_from_le(stream.subrange(end, stream.len() as int));
                let (block, consumed) = choose|block: Seq<u8>, consumed: int| #[trigger]
                    spec_rebuilt(codec, rest, block, consumed) && spec_verdict(
                        index,
                        block,
                        consumed,
                        rest.len() as int,
                    ) == Some(e);
                lemma_decoder_undoes(codec, records, sources, m, block, consumed);
                assert(false);
            },
        }
    } else {
        assert(records.take(m) =~= records);
    }
    assert(blocks =~= spec_held(records, sources));
}

/// The records read grow by the record that follows them.
proof fn lemma_parsed_push<C: BlockCodec>(
    codec: &C,
    stream: Seq<u8>,
    blocks: Seq<Block>,
    at: int,
    block: Block,
    end: int,
)
    requires
        spec_parsed(codec, stream, blocks, at),
        spec_record_at(codec, stream, at, block, end),
    ensures
        spec_parsed(codec, stream, blocks.push(block), end),
{
    let more = blocks.push(block);
    assert(more.drop_last() =~= blocks);
    assert(more.last() == block);
    assert(spec_parsed(codec, stream, more.drop_last(), at));
}

/// The write that fills block `b` with zeros.
pub fn write_zero_block(b: u64) -> (res: Result<BlockWrite, UnpackError>)
    ensures
        match res {
            Ok(w) => {
                &&& b <= MAX_BLOCKS
                &&& w.offset == b * BLOCK_SIZE
                &&& w.data@ == Seq::new(BLOCK_SIZE as nat, |i: int| 0u8)
            },
            Err(e) => e == UnpackError::BlockOutOfRange && b > MAX_BLOCKS,
        },
{
    match block_offset(b) {
        None => Err(UnpackError::BlockOutOfRange),
        Some(offset) => {
            let zeroes: Vec<u8> = vec![0u8; BLOCK_BYTES];
            assert(zeroes@ =~= Seq::new(BLOCK_SIZE as nat, |i: int| 0u8));
            Ok(BlockWrite { offset, data: zeroes })
        },
    }
}

/// The write that gives the image its size before any block is written: a
/// block of zeros in the place of the last block. An image of no blocks
/// needs none.
pub fn size_output(nr_blocks: u64) -> (res: Result<Option<BlockWrite>, UnpackError>)
    ensures
        match res {
            Ok(None) => nr_blocks == 0,
            Ok(Some(w)) => {
                &&& 0 < nr_blocks <= MAX_BLOCKS + 1
                &&& w.offset == (nr_blocks - 1) * BLOCK_SIZE
                &&& w.data@ == Seq::new(BLOCK_SIZE as nat, |i: int| 0u8)
            },
            Err(e) => e == UnpackError::BlockOutOfRange && nr_blocks > MAX_BLOCKS + 1,
        },
{
    if nr_blocks == 0 {
        Ok(None)
    } else {
        match write_zero_block(nr_blocks - 1) {
            Ok(w) => Ok(Some(w)),
            Err(e) => Err(e),
        }
    }
}

/// Turns the blocks that a worker holds into writes, the last block first,
/// and leaves the worker's buffer empty.
pub fn write_blocks(blocks: &mut Vec<(u64, Vec<u8>)>) -> (ws: Vec<BlockWrite>)
    requires
        forall|i: int| 0 <= i < old(blocks)@.len() ==> (#[trigger] old(blocks)@[i]).0 <= MAX_BLOCKS,
    ensures
        final(blocks)@.len() == 0,
        spec_write_views(ws@) == spec_writes(spec_block_views(old(blocks)@)),
{
    let ghost all = blocks@;
    let mut ws: Vec<BlockWrite> = Vec::new();
    loop
        invariant
            all == old(blocks)@,
            forall|i: int| 0 <= i < all.len() ==> (#[trigger] all[i]).0 <= MAX_BLOCKS,
            ws@.len() + blocks@.len() == all.len(),
            blocks@ == all.subrange(0, blocks@.len() as int),
            forall|i: int|
                0 <= i < ws@.len() ==> (#[trigger] ws@[i])@ == spec_write(
                    (all[all.len() - 1 - i].0, all[all.len() - 1 - i].1@),
                ),
        ensures
            blocks@.len() == 0,
            ws@.len() == all.len(),
            forall|i: int|
                0 <= i < ws@.len() ==> (#[trigger] ws@[i])@ == spec_write(
                    (all[all.len() - 1 - i].0, all[all.len() - 1 - i].1@),
                ),
        decreases blocks@.len(),
    {
        let ghost left = blocks@.len() as int;
        match blocks.pop() {
            None => {
                break ;
            },
            Some((b, data)) => {
                assert(all[left - 1] == (b, data));
                assert(blocks@ =~= all.subrange(0, left - 1));
                let offset = b * BLOCK_SIZE;
                ws.push(BlockWrite { offset, data });
            },
        }
    }
    assert(spec_write_views(ws@) =~= spec_writes(spec_block_views(all)));
    ws
}

/// Reads the block number of the record that starts at `pos`, and says where
/// its payload starts. There is no record where no byte is left: the records
/// of the run are then read. A run that ends inside a block number is an
/// error.
pub fn next_record(data: &[u8], pos: usize) -> (r: Result<Option<(u64, usize)>, UnpackError>)
    requires
        pos <= data@.len(),
    ensures
        match spec_next_record(data@.subrange(pos as int, data@.len() as int)) {
            Err(e) => r == Err::<Option<(u64, usize)>, UnpackError>(e),
            Ok(None) => r == Ok::<Option<(u64, usize)>, UnpackError>(None),
            Ok(Some(index)) => r == Ok::<Option<(u64, usize)>, UnpackError>(
                Some((index, (pos + 8) as usize)),
            ) && pos + 8 <= data@.len(),
        },
{
    let rest = slice_subrange(data, pos, data.len());
    if rest.len() == 0 {
        Ok(None)
    } else if rest.len() < 8 {
        Err(UnpackError::TruncatedRecord)
    } else {
        Ok(Some((read_u64_le(rest), pos + 8)))
    }
}

/// One worker of the unpack engine.
pub struct UnpackWorker {
    /// The blocks that wait to be written.
    blocks: Vec<(u64, Vec<u8>)>,
    /// All blocks that the worker took, in order.
    taken: Ghost<Seq<Block>>,
}

impl UnpackWorker {
    /// All blocks that the worker took since it was made, in order.
    pub closed spec fn blocks(&self) -> Seq<Block> {
        self.taken@
    }

    /// The worker holds the blocks that did not yet leave in a batch, fewer
    /// than a full batch, and took none that it should have refused.
    pub closed spec fn wf(&self) -> bool {
        let len = self.taken@.len() as int;
        let held = self.blocks@.len() as int;
        &&& held < FLUSH_BLOCKS
        &&& held == len % 32
        &&& spec_block_views(self.blocks@) == self.taken@.subrange(len - held, len)
        &&& forall|i: int| 0 <= i < len ==> spec_block_ok(#[trigger] self.taken@[i])
    }

    /// The blocks that did not yet leave in a batch.
    pub open spec fn spec_pending(&self) -> Seq<Block> {
        let len = self.blocks().len() as int;
        self.blocks().subrange(len - len % 32, len)
    }

    /// Every block that a worker took classifies as metadata and has a
    /// number within reach.
    pub proof fn lemma_blocks_ok(&self)
        requires
            self.wf(),
        ensures
            forall|i: int|
                0 <= i < self.blocks().len() ==> spec_block_ok(#[trigger] self.blocks()[i]),
    {
    }

    /// A worker that took no block yet.
    pub fn new() -> (w: Self)
        ensures
            w.wf(),
            w.blocks() == Seq::<Block>::empty(),
    {
        let w = UnpackWorker { blocks: Vec::new(), taken: Ghost(Seq::empty()) };
        assert(spec_block_views(w.blocks@) =~= w.taken@.subrange(0, 0));
        w
    }

    /// Takes a block that was rebuilt. The block is refused, and the worker
    /// left as it was, where the block does not classify as metadata or its
    /// number is out of reach. With the 32nd block since the last batch, the
    /// blocks gathered leave as a batch of writes, which is returned.
    pub fn push_block(&mut self, index: u64, block: Vec<u8>) -> (res: Result<
        Option<Vec<BlockWrite>>,
        UnpackError,
    >)
        requires
            old(self).wf(),
        ensures
            final(self).wf(),
            match res {
                Err(e) => {
                    &&& final(self).blocks() == old(self).blocks()
                    &&& spec_refusal(index, block@) == Some(e)
                },
                Ok(batch) => {
                    let k = final(self).blocks().len() / 32 - 1;
                    &&& spec_refusal(index, block@) is None
                    &&& final(self).blocks() == old(self).blocks().push((index, block@))
                    &&& batch is Some <==> final(self).blocks().len() % 32 == 0
                    &&& batch matches Some(ws) ==> spec_write_views(ws@) == spec_batch(
                        final(self).blocks(),
                        k,
                    )
                },
            },
    {
        if metadata_block_type(block.as_slice()) == BlockType::Unknown {
            return Err(UnpackError::UnknownBlock);
        }
        if index > MAX_BLOCKS {
            return Err(UnpackError::BlockOutOfRange);
        }
        let ghost before = self.taken@;
        let ghost len = before.len() as int;
        let ghost held = self.blocks@.len() as int;
        let ghost after = before.push((index, block@));
        let ghost was = spec_block_views(self.blocks@);
        let ghost bytes = block@;
        self.blocks.push((index, block));
        self.taken = Ghost(after);
        proof {
            assert(spec_block_views(self.blocks@) =~= was.push((index, bytes)));
            assert(was.push((index, bytes)) =~= after.subrange(len - held, len + 1));
        }
        if self.blocks.len() >= FLUSH_BLOCKS {
            proof {
                assert forall|i: int| 0 <= i < self.blocks@.len() implies (
                #[trigger] self.blocks@[i]).0 <= MAX_BLOCKS by {
                    assert(spec_block_views(self.blocks@)[i] == after[len - held + i]);
                }
                assert(spec_batch_blocks(after, (len + 1) / 32 - 1) =~= spec_block_views(
                    self.blocks@,
                ));
            }
            let ws = write_blocks(&mut self.blocks);
            proof {
                assert(spec_block_views(self.blocks@) =~= after.subrange(len + 1, len + 1));
            }
            Ok(Some(ws))
        } else {
            Ok(None)
        }
    }

    /// Takes what the decoder made of a record, where `left` bytes of the
    /// run were left for it. Refuses it where the decoder claims to have used
    /// more than that, and else as `push_block` does.
    pub fn take_block(&mut self, index: u64, rebuilt: Reconstructed, left: usize) -> (res: Result<
        Option<Vec<BlockWrite>>,
        UnpackError,
    >)
        requires
            old(self).wf(),
        ensures
            final(self).wf(),
            match res {
                Err(e) => {
                    &&& final(self).blocks() == old(self).blocks()
                    &&& spec_verdict(index, rebuilt.block@, rebuilt.consumed as int, left as int)
                        == Some(e)
                },
                Ok(batch) => {
                    let k = final(self).blocks().len() / 32 - 1;
                    &&& spec_verdict(index, rebuilt.block@, rebuilt.consumed as int, left as int)
                        is None
                    &&& final(self).blocks() == old(self).blocks().push((index, rebuilt.block@))
                    &&& batch is Some <==> final(self).blocks().len() % 32 == 0
                    &&& batch matches Some(ws) ==> spec_write_views(ws@) == spec_batch(
                        final(self).blocks(),
                        k,
                    )
                },
            },
    {
        if rebuilt.consumed > left {
            return Err(UnpackError::RecordOverrun);
        }
        self.push_block(index, rebuilt.block)
    }

    /// Unpacks a run: inflates it, has the codec rebuild the block of each
    /// record, and takes the blocks, until the stream is at its end. A
    /// stream that ends inside the block number of a record stops the
    /// worker. Returns the batches of writes that were filled on
    /// the way, in order, and the error that stopped the worker, if one did.
    /// A worker that was stopped keeps the blocks it took until then, and
    /// the batches filled until then are returned all the same.
    pub fn decode_run<C: BlockCodec>(&mut self, codec: &C, run: &[u8]) -> (res: (
        Vec<Vec<BlockWrite>>,
        Result<(), UnpackError>,
    ))
        requires
            old(self).wf(),
        ensures
            final(self).wf(),
            old(self).blocks().is_prefix_of(final(self).blocks()),
            ({
                let first = old(self).blocks().len() as int;
                let all = final(self).blocks();
                &&& res.0@.len() == all.len() / 32 - first / 32
                &&& forall|t: int|
                    0 <= t < res.0@.len() ==> spec_write_views((#[trigger] res.0@[t])@)
                        == spec_batch(all, first / 32 + t)
            }),
            match spec_inflate(run@) {
                None => {
                    &&& res.1 == Err::<(), UnpackError>(UnpackError::CorruptRun)
                    &&& final(self).blocks() == old(self).blocks()
                },
                Some(stream) => {
                    let first = old(self).blocks().len() as int;
                    let all = final(self).blocks();
                    spec_run_read(codec, stream, all.subrange(first, all.len() as int), res.1)
                },
            },
    {
        let ghost start = self.blocks();
        let ghost first = start.len() as int;
        let mut batches: Vec<Vec<BlockWrite>> = Vec::new();
        let stream = match inflate(run) {
            None => {
                return (batches, Err(UnpackError::CorruptRun));
            },
            Some(stream) => stream,
        };
        let data = stream.as_slice();
        let mut pos: usize = 0;
        proof {
            assert(start.subrange(first, first) =~= Seq::<Block>::empty());
        }
        loop
            invariant
                self.wf(),
                spec_inflate(run@) == Some(stream@),
                data@ == stream@,
                pos <= data@.len(),
                first == start.len(),
                start == old(self).blocks(),
                start.is_prefix_of(self.blocks()),
                spec_parsed(
                    codec,
                    stream@,
                    self.blocks().subrange(first, self.blocks().len() as int),
                    pos as int,
                ),
                batches@.len() == self.blocks().len() / 32 - first / 32,
                forall|t: int|
                    0 <= t < batches@.len() ==> spec_write_views((#[trigger] batches@[t])@)
                        == spec_batch(self.blocks(), first / 32 + t),
            decreases data@.len() - pos,
        {
            let (index, from) = match next_record(data, pos) {
                Err(e) => {
                    assert(spec_stopped(codec, stream@, pos as int, e));
                    assert(spec_run_read(
                        codec,
                        stream@,
                        self.blocks().subrange(first, self.blocks().len() as int),
                        Err::<(), UnpackError>(e),
                    ));
                    return (batches, Err(e));
                },
                Ok(None) => {
                    assert(spec_run_read(
                        codec,
                        stream@,
                        self.blocks().subrange(first, self.blocks().len() as int),
                        Ok::<(), UnpackError>(()),
                    ));
                    return (batches, Ok(()));
                },
                Ok(Some(found)) => found,
            };
            let rest = slice_subrange(data, from, data.len());
            let rebuilt = match codec.reconstruct(rest, BLOCK_BYTES) {
                Err(e) => {
                    assert(spec_not_rebuilt(codec, rest@, e));
                    assert(spec_stopped(codec, stream@, pos as int, UnpackError::Reconstruct(e)));
                    assert(spec_run_read(
                        codec,
                        stream@,
                        self.blocks().subrange(first, self.blocks().len() as int),
                        Err::<(), UnpackError>(UnpackError::Reconstruct(e)),
                    ));
                    return (batches, Err(UnpackError::Reconstruct(e)));
                },
                Ok(rebuilt) => rebuilt,
            };
            let used = rebuilt.consumed;
            let ghost made = rebuilt;
            let ghost taken = self.blocks();
            assert(spec_rebuilt(codec, rest@, made.block@, used as int));
            match self.take_block(index, rebuilt, rest.len()) {
                Err(e) => {
                    assert(spec_stopped(codec, stream@, pos as int, e));
                    assert(spec_run_read(
                        codec,
                        stream@,
                        self.blocks().subrange(first, self.blocks().len() as int),
                        Err::<(), UnpackError>(e),
                    ));
                    return (batches, Err(e));
                },
                Ok(batch) => {
                    proof {
                        let now = self.blocks();
                        assert forall|t: int| 0 <= t < batches@.len() implies spec_write_views(
                            (#[trigger] batches@[t])@,
                        ) == spec_batch(now, first / 32 + t) by {
                            let k = first / 32 + t;
                            assert(spec_batch_blocks(now, k) =~= spec_batch_blocks(taken, k));
                        }
                        let was = taken.subrange(first, taken.len() as int);
                        let got = now.subrange(first, now.len() as int);
                        assert(got.drop_last() =~= was);
                        assert(got.last() == (index, made.block@));
                        assert(spec_record_at(
                            codec,
                            stream@,
                            pos as int,
                            got.last(),
                            from + used,
                        ));
                        assert(got.len() > 0);
                        assert(spec_parsed(codec, stream@, was, pos as int));
                        assert(spec_parsed(codec, stream@, got.drop_last(), pos as int));
                        lemma_parsed_push(codec, stream@, was, pos as int, got.last(), from + used);
                        assert(got =~= was.push(got.last()));
                    }
                    match batch {
                        Some(ws) => {
                            batches.push(ws);
                        },
                        None => {},
                    }
                },
            }
            pos = from + used;
        }
    }

    /// Ends the worker: the blocks that did not yet leave become a last
    /// batch of writes.
    pub fn finish(self) -> (ws: Vec<BlockWrite>)
        requires
            self.wf(),
        ensures
            spec_write_views(ws@) == spec_writes(self.spec_pending()),
    {
        let mut blocks = self.blocks;
        proof {
            let len = self.taken@.len() as int;
            let held = blocks@.len() as int;
            assert forall|i: int| 0 <= i < blocks@.len() implies (#[trigger] blocks@[i]).0
                <= MAX_BLOCKS by {
                assert(spec_block_views(blocks@)[i] == self.taken@[len - held + i]);
            }
        }
        write_blocks(&mut blocks)
    }
}

/// Hands the runs of an archive to the workers, each run to the next worker
/// in turn.
pub struct Dispatcher {
    /// The number of workers.
    nr_jobs: usize,
    /// The worker that gets the next run.
    next_worker: usize,
    /// How many runs were handed out.
    sent: Ghost<nat>,
}

impl Dispatcher {
    /// The number of workers.
    pub closed spec fn jobs(&self) -> nat {
        self.nr_jobs as nat
    }

    /// How many runs were handed out.
    pub closed spec fn runs_sent(&self) -> nat {
        self.sent@
    }

    /// The next worker is the one whose turn it is.
    pub closed spec fn wf(&self) -> bool {
        &&& self.nr_jobs >= 1
        &&& self.next_worker == self.sent@ % (self.nr_jobs as nat)
    }

    /// A dispatcher for `nr_jobs` workers that handed out no run yet.
    pub fn new(nr_jobs: usize) -> (d: Self)
        requires
            nr_jobs >= 1,
        ensures
            d.wf(),
            d.jobs() == nr_jobs,
            d.runs_sent() == 0,
    {
        proof {
            lemma_small_mod(0, nr_jobs as nat);
        }
        Dispatcher { nr_jobs, next_worker: 0, sent: Ghost(0) }
    }

    /// Says which worker gets the next run: the first run goes to worker 0,
    /// the next to worker 1, and so on, and after the last worker it is the
    /// turn of worker 0 again.
    pub fn dispatch(&mut self) -> (worker: usize)
        requires
            old(self).wf(),
        ensures
            final(self).wf(),
            final(self).jobs() == old(self).jobs(),
            final(self).runs_sent() == old(self).runs_sent() + 1,
            worker == old(self).runs_sent() % old(self).jobs(),
            worker < old(self).jobs(),
    {
        let worker = self.next_worker;
        let ghost n = self.nr_jobs as int;
        let ghost s = self.sent@ as int;
        proof {
            lemma_fundamental_div_mod(s, n);
            let q = s / n;
            assert(n * q == q * n) by (nonlinear_arith);
            if worker + 1 < n {
                lemma_fundamental_div_mod_converse(s + 1, n, q, worker + 1);
            } else {
                assert((q + 1) * n == q * n + n) by (nonlinear_arith);
                lemma_fundamental_div_mod_converse(s + 1, n, q + 1, 0);
            }
        }
        self.next_worker = if worker + 1 < self.nr_jobs {
            worker + 1
        } else {
            0
        };
        self.sent = Ghost((s + 1) as nat);
        worker
    }
}

} // verus!
