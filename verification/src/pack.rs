//! The pack engine: one worker's way from the blocks of its chunks to the
//! runs of the archive.
//!
//! A worker goes through the blocks of a chunk in order. It skips the blocks
//! that are not metadata and turns each of the others into a record: the
//! number of the block, then the short form of the block. Records gather in
//! a stream; with the 1024th the stream is compressed and leaves the worker
//! as a run. What is left when the worker has no more chunks becomes a last,
//! shorter run.

use crate::block::{metadata_block_type, spec_block_type, BlockType, BLOCK_BYTES, BLOCK_SIZE};
use crate::bytes::{append_bytes, lemma_u64_le_round_trip, spec_u64_to_le, write_u64_le};
use crate::codec::{BlockCodec, EncodeError};
use crate::container::{frame_run, spec_frame};
use crate::planner::{
    lemma_chunk_coverage, spec_clamp, spec_covered, spec_covers, spec_is_plan, Chunk,
};
use crate::zlib::{deflate, spec_deflate, spec_inflate};
use vstd::prelude::*;
use vstd::slice::slice_subrange;

verus! {

/// The number of records in a full run.
pub const RUN_RECORDS: u64 = 1024;

/// A record: the number of a block, and the short form of the block.
pub type Record = (u64, Seq<u8>);

/// Why a worker stopped packing.
#[derive(Clone, Copy, Debug, PartialEq, Eq, Structural)]
pub enum PackError {
    /// The encoder refused a block.
    Encode(EncodeError),
    /// The compressor reported an error.
    Compress,
}

/// A record as it stands in the stream: the block number, then the payload.
pub open spec fn spec_record(record: Record) -> Seq<u8> {
    spec_u64_to_le(record.0) + record.1
}

/// The stream that holds `records` in this order.
pub open spec fn spec_stream(records: Seq<Record>) -> Seq<u8>
    decreases records.len(),
{
    if records.len() == 0 {
        Seq::empty()
    } else {
        spec_stream(records.drop_last()) + spec_record(records.last())
    }
}

/// The run that holds `records`, as it is stored in the archive: `None`
/// where the compressor fails on their stream.
pub open spec fn spec_run_of(records: Seq<Record>) -> Option<Seq<u8>> {
    match spec_deflate(spec_stream(records)) {
        Some(compressed) => Some(spec_frame(compressed)),
        None => None,
    }
}

/// `run` is the run that holds `records`, and what follows its length field
/// inflates back to the stream of the records.
pub open spec fn spec_sealed(records: Seq<Record>, run: Seq<u8>) -> bool {
    &&& spec_run_of(records) == Some(run)
    &&& spec_inflate(run.subrange(8, run.len() as int)) == Some(spec_stream(records))
}

/// The records of the `k`-th full run of a worker that took `records`.
pub open spec fn spec_run_records(records: Seq<Record>, k: int) -> Seq<Record> {
    records.subrange(k * 1024, k * 1024 + 1024)
}

/// The `k`-th full run of a worker that took `records`: `None` where the
/// compressor fails on it.
pub open spec fn spec_run(records: Seq<Record>, k: int) -> Option<Seq<u8>> {
    spec_run_of(spec_run_records(records, k))
}

/// The block numbers of `records`.
pub open spec fn spec_indices(records: Seq<Record>) -> Seq<u64> {
    Seq::new(records.len(), |i: int| records[i].0)
}

/// The `i`-th block of `data`.
pub open spec fn spec_block(data: Seq<u8>, i: int) -> Seq<u8> {
    data.subrange(i * 4096, i * 4096 + 4096)
}

/// The numbers of the metadata blocks among the first `n` blocks of `data`,
/// in rising order, where the first block of `data` has the number `lo`.
pub open spec fn spec_metadata_upto(data: Seq<u8>, lo: u64, n: int) -> Seq<u64>
    decreases n,
{
    if n <= 0 {
        Seq::empty()
    } else {
        let before = spec_metadata_upto(data, lo, n - 1);
        if spec_block_type(spec_block(data, n - 1)) != BlockType::Unknown {
            before.push((lo + n - 1) as u64)
        } else {
            before
        }
    }
}

/// The numbers of the metadata blocks of `data`, in rising order, where the
/// first block of `data` has the number `lo`.
pub open spec fn spec_metadata_blocks(data: Seq<u8>, lo: u64) -> Seq<u64> {
    spec_metadata_upto(data, lo, data.len() as int / 4096)
}

/// `payload` is a short form that the encoder of `codec` gave for `block`.
pub open spec fn spec_encoded<C: BlockCodec>(
    codec: &C,
    kind: BlockType,
    block: Seq<u8>,
    payload: Seq<u8>,
) -> bool {
    exists|b: &[u8], p: Vec<u8>|
        b@ == block && p@ == payload && #[trigger] call_ensures(
            C::encode,
            (codec, kind, b),
            Ok::<Vec<u8>, EncodeError>(p),
        )
}

/// The encoder of `codec` refused `block` with the error `e`.
pub open spec fn spec_refused<C: BlockCodec>(
    codec: &C,
    kind: BlockType,
    block: Seq<u8>,
    e: EncodeError,
) -> bool {
    exists|b: &[u8]|
        b@ == block && #[trigger] call_ensures(
            C::encode,
            (codec, kind, b),
            Err::<Vec<u8>, EncodeError>(e),
        )
}

/// The compressor failed on the run that was due when a worker that had
/// taken `records` took one more, with the number `index` and a short form
/// that the encoder gave for `block`.
pub open spec fn spec_run_failed<C: BlockCodec>(
    codec: &C,
    kind: BlockType,
    block: Seq<u8>,
    index: u64,
    records: Seq<Record>,
) -> bool {
    exists|payload: Seq<u8>| #[trigger]
        spec_encoded(codec, kind, block, payload) && spec_run(
            records.push((index, payload)),
            (records.len() + 1) / 1024 - 1,
        ) is None
}

/// `record` holds a block of `data`, whose first block has the number `lo`:
/// the number of the block, and a short form that the encoder gave for it.
pub open spec fn spec_packed<C: BlockCodec>(
    codec: &C,
    data: Seq<u8>,
    lo: u64,
    record: Record,
) -> bool {
    let i = record.0 - lo;
    &&& 0 <= i < data.len() / 4096
    &&& spec_encoded(codec, spec_block_type(spec_block(data, i)), spec_block(data, i), record.1)
}

/// Tells a worker's error from what the encoder said of a block.
pub fn check(r: Result<Vec<u8>, EncodeError>) -> (res: Result<Vec<u8>, PackError>)
    ensures
        res == (match r {
            Ok(payload) => Ok::<Vec<u8>, PackError>(payload),
            Err(e) => Err(PackError::Encode(e)),
        }),
{
    match r {
        Ok(payload) => Ok(payload),
        Err(e) => Err(PackError::Encode(e)),
    }
}

/// Makes a run of what the compressor gave for a stream.
pub fn seal_run(compressed: Option<Vec<u8>>) -> (res: Result<Vec<u8>, PackError>)
    ensures
        match compressed {
            Some(c) => res is Ok && res->Ok_0@ == spec_frame(c@),
            None => res == Err::<Vec<u8>, PackError>(PackError::Compress),
        },
{
    match compressed {
        Some(c) => Ok(frame_run(c.as_slice())),
        None => Err(PackError::Compress),
    }
}

/// The stream grows by a record when a record is added at the end.
proof fn lemma_stream_push(records: Seq<Record>, record: Record)
    ensures
        spec_stream(records.push(record)) == spec_stream(records) + spec_record(record),
{
    assert(records.push(record).drop_last() =~= records);
}

/// One worker of the pack engine.
pub struct PackWorker {
    /// The records of the run that is being filled.
    stream: Vec<u8>,
    /// How many records the stream holds.
    written: u64,
    /// All records that the worker took, in order.
    taken: Ghost<Seq<Record>>,
}

impl PackWorker {
    /// All records that the worker took since it was made, in order.
    pub closed spec fn records(&self) -> Seq<Record> {
        self.taken@
    }

    /// The worker holds the records that did not yet leave in a run, fewer
    /// than a full run.
    pub closed spec fn wf(&self) -> bool {
        let len = self.taken@.len() as int;
        &&& self.written < RUN_RECORDS
        &&& self.written == len % 1024
        &&& self.stream@ == spec_stream(self.taken@.subrange(len - self.written, len))
    }

    /// The records that did not yet leave in a run.
    pub open spec fn spec_pending(&self) -> Seq<Record> {
        let len = self.records().len() as int;
        self.records().subrange(len - len % 1024, len)
    }

    /// A worker that took no record yet.
    pub fn new() -> (w: Self)
        ensures
            w.wf(),
            w.records() == Seq::<Record>::empty(),
    {
        let w = PackWorker { stream: Vec::new(), written: 0, taken: Ghost(Seq::empty()) };
        assert(w.taken@.subrange(0, 0) =~= Seq::<Record>::empty());
        w
    }

    /// Takes a record. With the 1024th record since the last run, the
    /// records gathered leave as a run, which is returned. Where the
    /// compressor fails on that run, the record is not taken.
    pub fn add_record(&mut self, index: u64, payload: &[u8]) -> (res: Result<
        Option<Vec<u8>>,
        PackError,
    >)
        requires
            old(self).wf(),
        ensures
            final(self).wf(),
            match res {
                Ok(None) => {
                    &&& final(self).records() == old(self).records().push((index, payload@))
                    &&& final(self).records().len() % 1024 != 0
                },
                Ok(Some(run)) => {
                    let k = final(self).records().len() / 1024 - 1;
                    &&& final(self).records() == old(self).records().push((index, payload@))
                    &&& final(self).records().len() % 1024 == 0
                    &&& spec_sealed(spec_run_records(final(self).records(), k), run@)
                },
                Err(e) => {
                    &&& e == PackError::Compress
                    &&& final(self).records() == old(self).records()
                },
            },
            ({
                let due = old(self).records().push((index, payload@));
                res is Err <==> due.len() % 1024 == 0 && spec_run(due, due.len() / 1024 - 1)
                    is None
            }),
    {
        let ghost before = self.taken@;
        let ghost len = before.len() as int;
        let ghost pending = before.subrange(len - self.written, len);
        let ghost record: Record = (index, payload@);
        let ghost after = before.push(record);
        proof {
            lemma_stream_push(pending, record);
            assert(after.subrange(len - self.written, len + 1) =~= pending.push(record));
        }
        let mark = self.stream.len();
        write_u64_le(&mut self.stream, index);
        append_bytes(&mut self.stream, payload);
        assert(self.stream@ =~= spec_stream(pending.push(record)));
        if self.written + 1 == RUN_RECORDS {
            let compressed = deflate(self.stream.as_slice());
            let ghost made = spec_deflate(self.stream@);
            proof {
                let k = (len + 1) / 1024 - 1;
                assert(spec_run_records(after, k) =~= pending.push(record));
            }
            match seal_run(compressed) {
                Ok(run) => {
                    proof {
                        assert(run@.subrange(8, run@.len() as int) =~= made->Some_0) by {
                            lemma_u64_le_round_trip(made->Some_0.len() as u64);
                        }
                        assert(after.subrange(len + 1, len + 1) =~= Seq::<Record>::empty());
                    }
                    self.stream = Vec::new();
                    self.written = 0;
                    self.taken = Ghost(after);
                    Ok(Some(run))
                },
                Err(e) => {
                    self.stream.truncate(mark);
                    assert(self.stream@ =~= spec_stream(pending));
                    Err(e)
                },
            }
        } else {
            self.written = self.written + 1;
            self.taken = Ghost(after);
            Ok(None)
        }
    }

    /// Encodes a metadata block and takes the record. Where the encoder
    /// refuses the block, or the compressor fails, the worker is as before.
    pub fn pack_block<C: BlockCodec>(
        &mut self,
        codec: &C,
        index: u64,
        kind: BlockType,
        buf: &[u8],
    ) -> (res: Result<Option<Vec<u8>>, PackError>)
        requires
            old(self).wf(),
            kind != BlockType::Unknown,
            buf@.len() == BLOCK_SIZE,
        ensures
            final(self).wf(),
            match res {
                Ok(run) => {
                    let k = final(self).records().len() / 1024 - 1;
                    &&& final(self).records().len() == old(self).records().len() + 1
                    &&& final(self).records().drop_last() == old(self).records()
                    &&& final(self).records().last().0 == index
                    &&& spec_encoded(codec, kind, buf@, final(self).records().last().1)
                    &&& run is Some <==> final(self).records().len() % 1024 == 0
                    &&& run matches Some(r) ==> spec_sealed(
                        spec_run_records(final(self).records(), k),
                        r@,
                    )
                },
                Err(PackError::Encode(e)) => {
                    &&& final(self).records() == old(self).records()
                    &&& spec_refused(codec, kind, buf@, e)
                },
                Err(PackError::Compress) => {
                    &&& final(self).records() == old(self).records()
                    &&& (old(self).records().len() + 1) % 1024 == 0
                    &&& spec_run_failed(codec, kind, buf@, index, old(self).records())
                },
            },
    {
        match check(codec.encode(kind, buf)) {
            Err(e) => Err(e),
            Ok(payload) => {
                let ghost before = self.records();
                assert(spec_encoded(codec, kind, buf@, payload@));
                let res = self.add_record(index, payload.as_slice());
                proof {
                    if res is Ok {
                        assert(before.push((index, payload@)).drop_last() =~= before);
                    } else {
                        assert(spec_run_failed(codec, kind, buf@, index, before));
                    }
                }
                res
            },
        }
    }

    /// Packs the blocks of a chunk: `data` holds the blocks from number `lo`
    /// on. Each metadata block, in the order of the blocks, is encoded and
    /// taken as a record. Returns the runs that were filled on the way, in
    /// order, and the error that stopped the worker, if one did: that of the
    /// encoder on the first block it refused, or that of the compressor. A
    /// worker that was stopped keeps the records it took until then, and the
    /// runs filled until then are returned all the same.
    pub fn crunch<C: BlockCodec>(&mut self, codec: &C, lo: u64, data: &[u8]) -> (res: (
        Vec<Vec<u8>>,
        Result<(), PackError>,
    ))
        requires
            old(self).wf(),
            data@.len() % 4096 == 0,
            lo + data@.len() / 4096 <= u64::MAX,
        ensures
            final(self).wf(),
            old(self).records().is_prefix_of(final(self).records()),
            ({
                let first = old(self).records().len() as int;
                let all = final(self).records();
                let indices = spec_indices(all.subrange(first, all.len() as int));
                let wanted = spec_metadata_blocks(data@, lo);
                &&& res.0@.len() == all.len() / 1024 - first / 1024
                &&& forall|t: int|
                    0 <= t < res.0@.len() ==> spec_sealed(
                        spec_run_records(all, first / 1024 + t),
                        (#[trigger] res.0@[t])@,
                    )
                &&& indices.is_prefix_of(wanted)
                &&& forall|j: int|
                    first <= j < all.len() ==> spec_packed(codec, data@, lo, #[trigger] all[j])
                &&& match res.1 {
                    Ok(_) => indices == wanted,
                    Err(PackError::Encode(e)) => {
                        let i = wanted[indices.len() as int] - lo;
                        &&& indices.len() < wanted.len()
                        &&& 0 <= i < data@.len() / 4096
                        &&& spec_refused(
                            codec,
                            spec_block_type(spec_block(data@, i)),
                            spec_block(data@, i),
                            e,
                        )
                    },
                    Err(PackError::Compress) => {
                        let i = wanted[indices.len() as int] - lo;
                        &&& indices.len() < wanted.len()
                        &&& 0 <= i < data@.len() / 4096
                        &&& (all.len() + 1) % 1024 == 0
                        &&& spec_run_failed(
                            codec,
                            spec_block_type(spec_block(data@, i)),
                            spec_block(data@, i),
                            wanted[indices.len() as int],
                            all,
                        )
                    },
                }
            }),
    {
        let ghost start = self.records();
        let ghost first = start.len() as int;
        let total = data.len();
        let n = total / BLOCK_BYTES;
        let mut runs: Vec<Vec<u8>> = Vec::new();
        let mut i: usize = 0;
        proof {
            assert(start.subrange(first, first) =~= Seq::<Record>::empty());
            assert(spec_indices(Seq::<Record>::empty()) =~= Seq::<u64>::empty());
        }
        while i < n
            invariant
                self.wf(),
                total == data@.len(),
                n == total / 4096,
                lo + n <= u64::MAX,
                i <= n,
                first == start.len(),
                start == old(self).records(),
                start.is_prefix_of(self.records()),
                spec_indices(self.records().subrange(first, self.records().len() as int))
                    == spec_metadata_upto(data@, lo, i as int),
                forall|j: int|
                    first <= j < self.records().len() ==> spec_packed(
                        codec,
                        data@,
                        lo,
                        #[trigger] self.records()[j],
                    ),
                runs@.len() == self.records().len() / 1024 - first / 1024,
                forall|t: int|
                    0 <= t < runs@.len() ==> spec_sealed(
                        spec_run_records(self.records(), first / 1024 + t),
                        (#[trigger] runs@[t])@,
                    ),
            decreases n - i,
        {
            assert(i * 4096 + 4096 <= total);
            let block = slice_subrange(data, i * BLOCK_BYTES, i * BLOCK_BYTES + BLOCK_BYTES);
            let kind = metadata_block_type(block);
            let ghost taken = self.records();
            if kind != BlockType::Unknown {
                let index = lo + i as u64;
                match self.pack_block(codec, index, kind, block) {
                    Err(e) => {
                        proof {
                            lemma_metadata_grows(data@, lo, i as int, n as int);
                            lemma_metadata_grows(data@, lo, i + 1, n as int);
                            let wanted = spec_metadata_blocks(data@, lo);
                            let found = spec_metadata_upto(data@, lo, i as int);
                            assert(spec_metadata_upto(data@, lo, i + 1) == found.push(index));
                            let at = found.len() as int;
                            assert(wanted[at] == found.push(index)[at]);
                        }
                        return (runs, Err(e));
                    },
                    Ok(run) => {
                        proof {
                            let now = self.records();
                            assert(now =~= taken.push(now.last()));
                            assert(now.subrange(first, now.len() as int) =~= taken.subrange(
                                first,
                                taken.len() as int,
                            ).push(now.last()));
                            assert(spec_indices(now.subrange(first, now.len() as int))
                                =~= spec_indices(
                                taken.subrange(first, taken.len() as int),
                            ).push(index));
                            assert forall|t: int| 0 <= t < runs@.len() implies spec_sealed(
                                spec_run_records(now, first / 1024 + t),
                                (#[trigger] runs@[t])@,
                            ) by {
                                let k = first / 1024 + t;
                                assert(spec_run_records(now, k) =~= spec_run_records(taken, k));
                            }
                            assert forall|j: int| first <= j < now.len() implies spec_packed(
                                codec,
                                data@,
                                lo,
                                #[trigger] now[j],
                            ) by {
                                if j < taken.len() {
                                    assert(now[j] == taken[j]);
                                }
                            }
                        }
                        match run {
                            Some(r) => {
                                runs.push(r);
                            },
                            None => {},
                        }
                    },
                }
            }
            i = i + 1;
        }
        (runs, Ok(()))
    }

    /// Ends the worker: the records that did not yet leave become a last
    /// run. There is none where no record is left, and an error where the
    /// compressor fails on them.
    pub fn finish(self) -> (res: Result<Option<Vec<u8>>, PackError>)
        requires
            self.wf(),
        ensures
            match res {
                Ok(None) => self.records().len() % 1024 == 0,
                Ok(Some(run)) => {
                    &&& self.records().len() % 1024 != 0
                    &&& spec_sealed(self.spec_pending(), run@)
                },
                Err(e) => e == PackError::Compress,
            },
            res is Err <==> self.records().len() % 1024 != 0 && spec_run_of(self.spec_pending())
                is None,
    {
        if self.written > 0 {
            let compressed = deflate(self.stream.as_slice());
            let ghost made = spec_deflate(self.stream@);
            match seal_run(compressed) {
                Ok(run) => {
                    proof {
                        assert(run@.subrange(8, run@.len() as int) =~= made->Some_0) by {
                            lemma_u64_le_round_trip(made->Some_0.len() as u64);
                        }
                    }
                    Ok(Some(run))
                },
                Err(e) => Err(e),
            }
        } else {
            Ok(None)
        }
    }
}

/// The metadata blocks among the first `i` blocks stand at the start of the
/// list of those among the first `n`.
proof fn lemma_metadata_grows(data: Seq<u8>, lo: u64, i: int, n: int)
    requires
        0 <= i <= n,
    ensures
        spec_metadata_upto(data, lo, i).is_prefix_of(spec_metadata_upto(data, lo, n)),
    decreases n - i,
{
    if i < n {
        lemma_metadata_grows(data, lo, i, n - 1);
    }
}

/// The list of the metadata blocks among the first `n` blocks holds the
/// numbers of just these blocks, in rising order.
pub proof fn lemma_metadata_members(data: Seq<u8>, lo: u64, n: int)
    requires
        0 <= n,
        lo + n <= u64::MAX,
    ensures
        forall|x: u64|
            #[trigger] spec_metadata_upto(data, lo, n).contains(x) <==> lo <= x < lo + n
                && spec_block_type(spec_block(data, x - lo)) != BlockType::Unknown,
        forall|a: int, b: int|
            0 <= a < b < spec_metadata_upto(data, lo, n).len() ==> spec_metadata_upto(
                data,
                lo,
                n,
            )[a] < spec_metadata_upto(data, lo, n)[b],
        forall|a: int|
            0 <= a < spec_metadata_upto(data, lo, n).len() ==> lo <= #[trigger] spec_metadata_upto(
                data,
                lo,
                n,
            )[a] < lo + n,
    decreases n,
{
    let list = spec_metadata_upto(data, lo, n);
    if n > 0 {
        lemma_metadata_members(data, lo, n - 1);
        let before = spec_metadata_upto(data, lo, n - 1);
        let last = (lo + n - 1) as u64;
        let is_metadata = spec_block_type(spec_block(data, n - 1)) != BlockType::Unknown;
        assert forall|x: u64| #[trigger] list.contains(x) <==> lo <= x < lo + n && spec_block_type(
            spec_block(data, x - lo),
        ) != BlockType::Unknown by {
            if is_metadata {
                assert(list == before.push(last));
                if list.contains(x) {
                    let i = choose|i: int| 0 <= i < list.len() && list[i] == x;
                    if i < before.len() {
                        assert(before.contains(before[i]));
                    }
                }
                if before.contains(x) {
                    let i = choose|i: int| 0 <= i < before.len() && before[i] == x;
                    assert(list[i] == x);
                }
                if x == last {
                    assert(list[before.len() as int] == x);
                }
            }
        }
    }
}

/// The bytes of the blocks of a chunk, cut off at the end of the image.
pub open spec fn spec_chunk_data(image: Seq<u8>, chunk: Chunk, nr_blocks: u64) -> Seq<u8> {
    let cut = spec_clamp(chunk, nr_blocks);
    image.subrange(cut.0 * 4096, cut.1 * 4096)
}

/// Block `b` is among the blocks that a worker packs when it is handed the
/// `k`-th chunk of bucket `j`.
pub open spec fn spec_packed_with(
    image: Seq<u8>,
    buckets: Seq<Seq<Chunk>>,
    j: int,
    k: int,
    b: u64,
    nr_blocks: u64,
) -> bool {
    &&& 0 <= j < buckets.len()
    &&& 0 <= k < buckets[j].len()
    &&& spec_metadata_blocks(
        spec_chunk_data(image, buckets[j][k], nr_blocks),
        spec_clamp(buckets[j][k], nr_blocks).0,
    ).contains(b)
}

/// Block `b` of the image is packed with some chunk of the plan.
pub open spec fn spec_packed_somewhere(
    image: Seq<u8>,
    buckets: Seq<Seq<Chunk>>,
    b: u64,
    nr_blocks: u64,
) -> bool {
    exists|j: int, k: int| #[trigger] spec_packed_with(image, buckets, j, k, b, nr_blocks)
}

/// Workers that follow a plan pack each metadata block of the image, each
/// with one chunk only, and nothing else: a block is packed with a chunk
/// just when it is metadata and lies in that chunk.
pub proof fn lemma_plan_packs_metadata_once(
    image: Seq<u8>,
    buckets: Seq<Seq<Chunk>>,
    nr_blocks: u64,
    nr_jobs: u64,
)
    requires
        nr_jobs >= 1,
        nr_blocks == image.len() / 4096,
        spec_is_plan(buckets, nr_blocks, nr_jobs),
    ensures
        forall|j: int, k: int, b: u64|
            #[trigger] spec_packed_with(image, buckets, j, k, b, nr_blocks) <==> spec_covers(
                buckets,
                j,
                k,
                b as int,
                nr_blocks,
            ) && spec_block_type(spec_block(image, b as int)) != BlockType::Unknown,
        forall|b: u64|
            b < nr_blocks && spec_block_type(spec_block(image, b as int)) != BlockType::Unknown
                ==> #[trigger] spec_packed_somewhere(image, buckets, b, nr_blocks),
        forall|b: u64, j1: int, k1: int, j2: int, k2: int|
            #[trigger] spec_packed_with(image, buckets, j1, k1, b, nr_blocks)
                && #[trigger] spec_packed_with(image, buckets, j2, k2, b, nr_blocks) ==> j1 == j2
                && k1 == k2,
{
    lemma_chunk_coverage(buckets, nr_blocks, nr_jobs);
    assert forall|j: int, k: int, b: u64| #[trigger]
        spec_packed_with(image, buckets, j, k, b, nr_blocks) <==> spec_covers(
            buckets,
            j,
            k,
            b as int,
            nr_blocks,
        ) && spec_block_type(spec_block(image, b as int)) != BlockType::Unknown by {
        if 0 <= j < buckets.len() && 0 <= k < buckets[j].len() {
            let cut = spec_clamp(buckets[j][k], nr_blocks);
            let data = spec_chunk_data(image, buckets[j][k], nr_blocks);
            assert(buckets[j][k].0 < buckets[j][k].1);
            let n = cut.1 - cut.0;
            assert(data.len() == n * 4096);
            lemma_metadata_members(data, cut.0, n);
            if cut.0 <= b < cut.1 {
                assert(spec_block(data, b - cut.0) =~= spec_block(image, b as int));
            }
        }
    }
    assert forall|b: u64|
        b < nr_blocks && spec_block_type(spec_block(image, b as int))
            != BlockType::Unknown implies #[trigger] spec_packed_somewhere(
        image,
        buckets,
        b,
        nr_blocks,
    ) by {
        assert(spec_covered(buckets, b as int, nr_blocks));
        let (j, k) = choose|j: int, k: int| #[trigger]
            spec_covers(buckets, j, k, b as int, nr_blocks);
        assert(spec_packed_with(image, buckets, j, k, b, nr_blocks));
    }
}

/// The number of workers does not change what is packed: workers that
/// follow any two plans for the same image, for whatever numbers of workers,
/// pack the same blocks, which are the metadata blocks of the image.
pub proof fn lemma_plans_pack_the_same(
    image: Seq<u8>,
    nr_blocks: u64,
    some: Seq<Seq<Chunk>>,
    nr_jobs: u64,
    other: Seq<Seq<Chunk>>,
    other_jobs: u64,
)
    requires
        nr_jobs >= 1,
        other_jobs >= 1,
        nr_blocks == image.len() / 4096,
        spec_is_plan(some, nr_blocks, nr_jobs),
        spec_is_plan(other, nr_blocks, other_jobs),
    ensures
        forall|b: u64|
            #[trigger] spec_packed_somewhere(image, some, b, nr_blocks) <==> b < nr_blocks
                && spec_block_type(spec_block(image, b as int)) != BlockType::Unknown,
        forall|b: u64|
            spec_packed_somewhere(image, some, b, nr_blocks) <==> #[trigger] spec_packed_somewhere(
                image,
                other,
                b,
                nr_blocks,
            ),
{
    lemma_plan_packs_metadata_once(image, some, nr_blocks, nr_jobs);
    lemma_plan_packs_metadata_once(image, other, nr_blocks, other_jobs);
    lemma_chunk_coverage(some, nr_blocks, nr_jobs);
    lemma_chunk_coverage(other, nr_blocks, other_jobs);
    assert forall|b: u64| #[trigger]
        spec_packed_somewhere(image, some, b, nr_blocks) <==> b < nr_blocks && spec_block_type(
            spec_block(image, b as int),
        ) != BlockType::Unknown by {
        if spec_packed_somewhere(image, some, b, nr_blocks) {
            let (j, k) = choose|j: int, k: int| #[trigger]
                spec_packed_with(image, some, j, k, b, nr_blocks);
            assert(spec_covers(some, j, k, b as int, nr_blocks));
        }
    }
    assert forall|b: u64|
        spec_packed_somewhere(image, some, b, nr_blocks) <==> #[trigger] spec_packed_somewhere(
            image,
            other,
            b,
            nr_blocks,
        ) by {
        if spec_packed_somewhere(image, other, b, nr_blocks) {
            let (j, k) = choose|j: int, k: int| #[trigger]
                spec_packed_with(image, other, j, k, b, nr_blocks);
            assert(spec_covers(other, j, k, b as int, nr_blocks));
        }
    }
}

} // verus!
