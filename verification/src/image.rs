//! Packing and unpacking of an image that is held in memory.
//!
//! `pack` does for the bytes of an image what a program does for a file with
//! one thread per worker: it plans the chunks, lets one worker after the
//! other pack its chunks, and puts the header and the runs together.
//! `unpack` reads such an archive back into an image.

use crate::block::{spec_block_type, BlockType, BLOCK_BYTES};
use crate::bytes::append_bytes;
use crate::codec::{BlockCodec, EncodeError};
use crate::container::{
    lemma_body_push, lemma_body_round_trip, lemma_frame_payload, lemma_header_len,
    lemma_header_round_trip,
    read_header, spec_body, spec_frame, spec_header, spec_read_header, spec_run_views,
    spec_split_runs, split_runs, write_header, FormatError, HEADER_BYTES,
};
use crate::pack::{
    lemma_metadata_members, lemma_plan_packs_metadata_once, spec_block, spec_chunk_data,
    spec_encoded, spec_indices, spec_metadata_blocks, spec_packed, spec_packed_somewhere,
    spec_packed_with, spec_refused, spec_run, spec_run_of, spec_run_records,
    spec_sealed, spec_stream, PackError, PackWorker, Record,
};
use crate::planner::{
    clamp_chunk, lemma_chunk_coverage, mk_chunk_vecs, spec_bucket_views, spec_clamp, spec_is_plan,
    Chunk,
};
use crate::unpack::{
    lemma_run_round_trip, spec_batch, spec_batch_blocks, spec_block_ok, spec_codec_inverts,
    spec_holds, spec_run_read, spec_write, spec_write_views, spec_writes, Block, BlockWrite,
    Dispatcher, UnpackError, UnpackWorker,
};
use crate::zlib::{spec_deflate, spec_inflate};
use vstd::prelude::*;
use vstd::slice::slice_subrange;

verus! {

/// `record` holds a metadata block of `image`: the number of the block, and
/// a short form that the encoder gave for it.
pub open spec fn spec_record_holds<C: BlockCodec>(
    codec: &C,
    image: Seq<u8>,
    record: Record,
) -> bool {
    &&& record.0 < image.len() / 4096
    &&& spec_holds(codec, record, spec_block(image, record.0 as int))
}

/// Each record of `group` holds a metadata block of `image`.
pub open spec fn spec_group_holds<C: BlockCodec>(
    codec: &C,
    image: Seq<u8>,
    group: Seq<Record>,
) -> bool {
    forall|t: int| 0 <= t < group.len() ==> spec_record_holds(codec, image, #[trigger] group[t])
}

/// Some record of `groups` has the block number `index`.
pub open spec fn spec_recorded(groups: Seq<Seq<Record>>, index: u64) -> bool {
    exists|i: int, t: int|
        0 <= i < groups.len() && 0 <= t < groups[i].len() && (#[trigger] groups[i][t]).0 == index
}

/// Some record of `records` has the block number `index`.
pub open spec fn spec_taken(records: Seq<Record>, index: u64) -> bool {
    exists|t: int| 0 <= t < records.len() && (#[trigger] records[t]).0 == index
}

/// `frames`, one after the other.
pub open spec fn spec_concat(frames: Seq<Seq<u8>>) -> Seq<u8>
    decreases frames.len(),
{
    if frames.len() == 0 {
        Seq::empty()
    } else {
        spec_concat(frames.drop_last()) + frames.last()
    }
}

/// The records of `groups`, one group after the other.
pub open spec fn spec_flat(groups: Seq<Seq<Record>>) -> Seq<Record>
    decreases groups.len(),
{
    if groups.len() == 0 {
        Seq::empty()
    } else {
        spec_flat(groups.drop_last()) + groups.last()
    }
}

/// No two of `records` have the same block number.
pub open spec fn spec_distinct(records: Seq<Record>) -> bool {
    forall|a: int, b: int|
        0 <= a < b < records.len() ==> (#[trigger] records[a]).0 != (#[trigger] records[b]).0
}

/// `archive` is the header of `image` and then the runs `frames`, and the
/// `i`-th run holds the records `groups[i]`, at least one and at most 1024,
/// each of which holds a metadata block of `image`.
pub open spec fn spec_written<C: BlockCodec>(
    codec: &C,
    image: Seq<u8>,
    archive: Seq<u8>,
    groups: Seq<Seq<Record>>,
    frames: Seq<Seq<u8>>,
) -> bool {
    &&& archive == spec_header((image.len() / 4096) as u64) + spec_concat(frames)
    &&& frames.len() == groups.len()
    &&& forall|i: int| 0 <= i < groups.len() ==> spec_sealed(#[trigger] groups[i], frames[i])
    &&& forall|i: int| 0 <= i < groups.len() ==> 0 < (#[trigger] groups[i]).len() <= 1024
    &&& forall|i: int| 0 <= i < frames.len() ==> (#[trigger] frames[i]).len() <= u64::MAX
    &&& forall|i: int|
        0 <= i < groups.len() ==> spec_group_holds(codec, image, #[trigger] groups[i])
}

/// `archive` holds `image`, packed: it is the header of the image and then
/// runs, each record of a run holds a metadata block of the image, and each
/// metadata block of the image is held by a record, and by one only, over
/// all runs.
pub open spec fn spec_packs<C: BlockCodec>(
    codec: &C,
    image: Seq<u8>,
    archive: Seq<u8>,
    groups: Seq<Seq<Record>>,
    frames: Seq<Seq<u8>>,
) -> bool {
    &&& spec_written(codec, image, archive, groups, frames)
    &&& forall|b: u64|
        b < image.len() / 4096 && spec_block_type(spec_block(image, b as int))
            != BlockType::Unknown ==> #[trigger] spec_recorded(groups, b)
    &&& spec_distinct(spec_flat(groups))
}

/// `archive` holds `image`, packed with `codec`.
pub open spec fn spec_packed_image<C: BlockCodec>(
    codec: &C,
    image: Seq<u8>,
    archive: Seq<u8>,
) -> bool {
    exists|groups: Seq<Seq<Record>>, frames: Seq<Seq<u8>>| #[trigger]
        spec_packs(codec, image, archive, groups, frames)
}

/// The encoder refused a metadata block of `image` with the error `e`.
pub open spec fn spec_encode_failed<C: BlockCodec>(
    codec: &C,
    image: Seq<u8>,
    e: EncodeError,
) -> bool {
    exists|b: u64|
        b < image.len() / 4096 && spec_block_type(spec_block(image, b as int))
            != BlockType::Unknown && #[trigger] spec_refused(
            codec,
            spec_block_type(spec_block(image, b as int)),
            spec_block(image, b as int),
            e,
        )
}

/// The compressor failed on a run of records that hold metadata blocks of
/// `image`.
pub open spec fn spec_compress_failed<C: BlockCodec>(codec: &C, image: Seq<u8>) -> bool {
    exists|group: Seq<Record>| #[trigger]
        spec_group_holds(codec, image, group) && group.len() > 0 && spec_run_of(group) is None
}

/// Block `b` is among the blocks that a worker packs when it is handed
/// `chunk`.
pub open spec fn spec_chunk_packs(image: Seq<u8>, chunk: Chunk, b: u64) -> bool {
    let nr_blocks = (image.len() / 4096) as u64;
    spec_metadata_blocks(
        spec_chunk_data(image, chunk, nr_blocks),
        spec_clamp(chunk, nr_blocks).0,
    ).contains(b)
}

/// Block `b` is among the blocks that a worker packs when it is handed the
/// first `upto` of `chunks`.
pub open spec fn spec_from_chunks(image: Seq<u8>, chunks: Seq<Chunk>, upto: int, b: u64) -> bool {
    exists|k: int| 0 <= k < upto && spec_chunk_packs(image, #[trigger] chunks[k], b)
}

/// Block `b` is among the blocks that the workers pack that are handed the
/// first `upto` buckets of a plan.
pub open spec fn spec_from_buckets(
    image: Seq<u8>,
    buckets: Seq<Seq<Chunk>>,
    upto: int,
    b: u64,
    nr_blocks: u64,
) -> bool {
    exists|j: int, k: int|
        0 <= j < upto && #[trigger] spec_packed_with(image, buckets, j, k, b, nr_blocks)
}

/// No block is packed with two of `chunks`.
pub open spec fn spec_chunks_apart(image: Seq<u8>, chunks: Seq<Chunk>) -> bool {
    forall|b: u64, k: int, l: int|
        0 <= k < chunks.len() && 0 <= l < chunks.len() && #[trigger] spec_chunk_packs(
            image,
            chunks[k],
            b,
        ) && #[trigger] spec_chunk_packs(image, chunks[l], b) ==> k == l
}

/// Why packing stopped, as its callers are told.
pub open spec fn spec_pack_stopped<C: BlockCodec>(
    codec: &C,
    image: Seq<u8>,
    e: PackError,
) -> bool {
    match e {
        PackError::Encode(e) => spec_encode_failed(codec, image, e),
        PackError::Compress => spec_compress_failed(codec, image),
    }
}

/// A run that was added to an archive is added to what the archive holds.
proof fn lemma_written_push<C: BlockCodec>(
    codec: &C,
    image: Seq<u8>,
    archive: Seq<u8>,
    groups: Seq<Seq<Record>>,
    frames: Seq<Seq<u8>>,
    group: Seq<Record>,
    frame: Seq<u8>,
)
    requires
        spec_written(codec, image, archive, groups, frames),
        spec_sealed(group, frame),
        spec_group_holds(codec, image, group),
        0 < group.len() <= 1024,
        frame.len() <= u64::MAX,
    ensures
        spec_written(codec, image, archive + frame, groups.push(group), frames.push(frame)),
        spec_flat(groups.push(group)) == spec_flat(groups) + group,
        forall|t: int|
            0 <= t < group.len() ==> spec_recorded(groups.push(group), (#[trigger] group[t]).0),
        forall|b: u64| spec_recorded(groups, b) ==> spec_recorded(groups.push(group), b),
{
    let more = groups.push(group);
    let longer = frames.push(frame);
    assert(longer.drop_last() =~= frames);
    assert(more.drop_last() =~= groups);
    let header = spec_header((image.len() / 4096) as u64);
    assert(archive + frame =~= header + spec_concat(longer));
    assert forall|t: int| 0 <= t < group.len() implies spec_recorded(
        more,
        (#[trigger] group[t]).0,
    ) by {
        assert(more[groups.len() as int][t].0 == group[t].0);
    }
    assert forall|b: u64| spec_recorded(groups, b) implies spec_recorded(more, b) by {
        let (i, t) = choose|i: int, t: int|
            0 <= i < groups.len() && 0 <= t < groups[i].len() && (#[trigger] groups[i][t]).0 == b;
        assert(more[i][t].0 == b);
    }
}

/// Adds the runs that a worker filled to the archive.
fn append_runs<C: BlockCodec>(
    codec: &C,
    Ghost(image): Ghost<Seq<u8>>,
    archive: &mut Vec<u8>,
    runs: &Vec<Vec<u8>>,
    Ghost(all): Ghost<Seq<Record>>,
    Ghost(base): Ghost<int>,
    Ghost(groups): Ghost<Seq<Seq<Record>>>,
    Ghost(frames): Ghost<Seq<Seq<u8>>>,
) -> (res: (Ghost<Seq<Seq<Record>>>, Ghost<Seq<Seq<u8>>>))
    requires
        spec_written(codec, image, old(archive)@, groups, frames),
        base >= 0,
        (base + runs@.len()) * 1024 <= all.len(),
        forall|t: int|
            0 <= t < runs@.len() ==> spec_sealed(
                spec_run_records(all, base + t),
                (#[trigger] runs@[t])@,
            ),
        forall|pos: int|
            0 <= pos < all.len() ==> spec_record_holds(codec, image, #[trigger] all[pos]),
    ensures
        spec_written(codec, image, final(archive)@, res.0@, res.1@),
        spec_flat(res.0@) == spec_flat(groups) + all.subrange(
            base * 1024,
            (base + runs@.len()) * 1024,
        ),
        forall|b: u64| spec_recorded(groups, b) ==> spec_recorded(res.0@, b),
        forall|pos: int|
            base * 1024 <= pos < (base + runs@.len()) * 1024 ==> spec_recorded(
                res.0@,
                (#[trigger] all[pos]).0,
            ),
{
    let ghost mut now = groups;
    proof {
        assert(spec_flat(groups) + all.subrange(base * 1024, base * 1024) =~= spec_flat(groups));
    }
    let ghost mut held = frames;
    let mut t: usize = 0;
    while t < runs.len()
        invariant
            t <= runs@.len(),
            base >= 0,
            (base + runs@.len()) * 1024 <= all.len(),
            spec_written(codec, image, archive@, now, held),
            spec_flat(now) == spec_flat(groups) + all.subrange(base * 1024, (base + t) * 1024),
            forall|t: int|
                0 <= t < runs@.len() ==> spec_sealed(
                    spec_run_records(all, base + t),
                    (#[trigger] runs@[t])@,
                ),
            forall|pos: int|
                0 <= pos < all.len() ==> spec_record_holds(codec, image, #[trigger] all[pos]),
            forall|b: u64| spec_recorded(groups, b) ==> spec_recorded(now, b),
            forall|pos: int|
                base * 1024 <= pos < (base + t) * 1024 ==> spec_recorded(
                    now,
                    (#[trigger] all[pos]).0,
                ),
        decreases runs@.len() - t,
    {
        let ghost group = spec_run_records(all, base + t);
        let ghost before = now;
        let size = runs[t].len();
        proof {
            assert forall|u: int| 0 <= u < group.len() implies spec_record_holds(
                codec,
                image,
                #[trigger] group[u],
            ) by {
                assert(group[u] == all[(base + t) * 1024 + u]);
            }
            lemma_written_push(codec, image, archive@, now, held, group, runs@[t as int]@);
            assert(all.subrange(base * 1024, (base + t) * 1024) + group =~= all.subrange(
                base * 1024,
                (base + t + 1) * 1024,
            ));
            now = now.push(group);
            held = held.push(runs@[t as int]@);
            assert forall|pos: int|
                base * 1024 <= pos < (base + t + 1) * 1024 implies spec_recorded(
                now,
                (#[trigger] all[pos]).0,
            ) by {
                if pos >= (base + t) * 1024 {
                    assert(all[pos] == group[pos - (base + t) * 1024]);
                }
            }
        }
        append_bytes(archive, runs[t].as_slice());
        t = t + 1;
    }
    (Ghost(now), Ghost(held))
}

/// What a worker took from a chunk of an image holds metadata blocks of
/// the image.
proof fn lemma_chunk_records_hold<C: BlockCodec>(
    codec: &C,
    image: Seq<u8>,
    lo: u64,
    hi: u64,
    record: Record,
)
    requires
        image.len() <= u64::MAX,
        lo <= hi <= image.len() / 4096,
        spec_packed(codec, image.subrange(lo * 4096, hi * 4096), lo, record),
        spec_metadata_blocks(image.subrange(lo * 4096, hi * 4096), lo).contains(record.0),
    ensures
        spec_record_holds(codec, image, record),
{
    let data = image.subrange(lo * 4096, hi * 4096);
    assert(data.len() == (hi - lo) * 4096);
    lemma_metadata_members(data, lo, hi - lo);
    let i = record.0 - lo;
    assert(spec_block(data, i) =~= spec_block(image, record.0 as int));
}

/// A worker whose records have block numbers of their own, and that takes
/// the metadata blocks of one more chunk, has records with block numbers of
/// their own.
proof fn lemma_chunk_keeps_apart(
    image: Seq<u8>,
    chunks: Seq<Chunk>,
    k: int,
    start: Seq<Record>,
    all: Seq<Record>,
    wanted: Seq<u64>,
)
    requires
        spec_chunks_apart(image, chunks),
        0 <= k < chunks.len(),
        start.is_prefix_of(all),
        spec_distinct(start),
        forall|pos: int|
            0 <= pos < start.len() ==> spec_from_chunks(
                image,
                chunks,
                k,
                (#[trigger] start[pos]).0,
            ),
        spec_indices(all.subrange(start.len() as int, all.len() as int)) == wanted,
        forall|b: u64| wanted.contains(b) ==> spec_chunk_packs(image, chunks[k], b),
        forall|a: int, b: int| 0 <= a < b < wanted.len() ==> wanted[a] < wanted[b],
    ensures
        spec_distinct(all),
        forall|pos: int|
            0 <= pos < all.len() ==> spec_from_chunks(
                image,
                chunks,
                k + 1,
                (#[trigger] all[pos]).0,
            ),
{
    let first = start.len() as int;
    let indices = spec_indices(all.subrange(first, all.len() as int));
    assert forall|pos: int| 0 <= pos < all.len() implies spec_from_chunks(
        image,
        chunks,
        k + 1,
        (#[trigger] all[pos]).0,
    ) by {
        if pos < first {
            assert(all[pos] == start[pos]);
            let from = choose|from: int|
                0 <= from < k && spec_chunk_packs(image, #[trigger] chunks[from], start[pos].0);
            assert(spec_chunk_packs(image, chunks[from], all[pos].0));
        } else {
            assert(indices[pos - first] == all[pos].0);
            assert(wanted.contains(wanted[pos - first]));
            assert(spec_chunk_packs(image, chunks[k], all[pos].0));
        }
    }
    assert forall|a: int, b: int| 0 <= a < b < all.len() implies (#[trigger] all[a]).0 != (
    #[trigger] all[b]).0 by {
        if b < first {
            assert(all[a] == start[a] && all[b] == start[b]);
        } else if a >= first {
            assert(indices[a - first] == all[a].0);
            assert(indices[b - first] == all[b].0);
            assert(wanted[a - first] < wanted[b - first]);
        } else {
            assert(all[a] == start[a]);
            assert(indices[b - first] == all[b].0);
            assert(wanted.contains(wanted[b - first]));
            assert(spec_chunk_packs(image, chunks[k], all[b].0));
            let from = choose|from: int|
                0 <= from < k && spec_chunk_packs(image, #[trigger] chunks[from], start[a].0);
            if all[a].0 == all[b].0 {
                assert(spec_chunk_packs(image, chunks[from], all[b].0));
                assert(from == k);
            }
        }
    }
}

/// Lets one worker pack its chunks, and adds its runs to the archive.
fn pack_chunks<C: BlockCodec>(
    codec: &C,
    image: &[u8],
    chunks: &Vec<Chunk>,
    archive: &mut Vec<u8>,
    Ghost(groups): Ghost<Seq<Seq<Record>>>,
    Ghost(frames): Ghost<Seq<Seq<u8>>>,
) -> (res: (
    Result<(), PackError>,
    Ghost<Seq<Seq<Record>>>,
    Ghost<Seq<Seq<u8>>>,
    Ghost<Seq<Record>>,
))
    requires
        spec_written(codec, image@, old(archive)@, groups, frames),
        forall|k: int| 0 <= k < chunks@.len() ==> (#[trigger] chunks@[k]).0 <= chunks@[k].1,
        spec_chunks_apart(image@, chunks@),
    ensures
        spec_written(codec, image@, final(archive)@, res.1@, res.2@),
        forall|b: u64| spec_recorded(groups, b) ==> spec_recorded(res.1@, b),
        match res.0 {
            Ok(_) => {
                &&& forall|k: int, b: u64|
                    0 <= k < chunks@.len() && #[trigger] spec_chunk_packs(image@, chunks@[k], b)
                        ==> spec_recorded(res.1@, b)
                &&& spec_flat(res.1@) == spec_flat(groups) + res.3@
                &&& spec_distinct(res.3@)
                &&& forall|pos: int|
                    0 <= pos < res.3@.len() ==> spec_from_chunks(
                        image@,
                        chunks@,
                        chunks@.len() as int,
                        (#[trigger] res.3@[pos]).0,
                    )
            },
            Err(e) => spec_pack_stopped(codec, image@, e),
        },
{
    let total = image.len();
    let nr_blocks = (total / BLOCK_BYTES) as u64;
    let mut worker = PackWorker::new();
    let ghost mut now = groups;
    let ghost mut held = frames;
    let mut k: usize = 0;
    proof {
        assert(spec_flat(groups) + worker.records().subrange(0, 0) =~= spec_flat(groups));
    }
    while k < chunks.len()
        invariant
            worker.wf(),
            spec_chunks_apart(image@, chunks@),
            spec_flat(now) == spec_flat(groups) + worker.records().subrange(
                0,
                (worker.records().len() as int / 1024) * 1024,
            ),
            spec_distinct(worker.records()),
            forall|pos: int|
                0 <= pos < worker.records().len() ==> spec_from_chunks(
                    image@,
                    chunks@,
                    k as int,
                    (#[trigger] worker.records()[pos]).0,
                ),
            total == image@.len(),
            nr_blocks == total / 4096,
            k <= chunks@.len(),
            forall|k: int| 0 <= k < chunks@.len() ==> (#[trigger] chunks@[k]).0 <= chunks@[k].1,
            spec_written(codec, image@, archive@, now, held),
            forall|b: u64| spec_recorded(groups, b) ==> spec_recorded(now, b),
            forall|pos: int|
                0 <= pos < worker.records().len() ==> spec_record_holds(
                    codec,
                    image@,
                    #[trigger] worker.records()[pos],
                ),
            forall|pos: int|
                0 <= pos < (worker.records().len() / 1024) * 1024 ==> spec_recorded(
                    now,
                    (#[trigger] worker.records()[pos]).0,
                ),
            forall|done: int, b: u64|
                0 <= done < k && #[trigger] spec_chunk_packs(image@, chunks@[done], b)
                    ==> spec_taken(worker.records(), b),
        decreases chunks@.len() - k,
    {
        let (lo, hi) = clamp_chunk(chunks[k], nr_blocks);
        assert(lo <= hi <= nr_blocks);
        assert(hi * 4096 <= total);
        let data = slice_subrange(image, lo as usize * BLOCK_BYTES, hi as usize * BLOCK_BYTES);
        assert(data@.len() == (hi - lo) * 4096);
        let ghost start = worker.records();
        let ghost first = start.len() as int;
        let ghost before = now;
        let (runs, status) = worker.crunch(codec, lo, data);
        let ghost all = worker.records();
        let ghost wanted = spec_metadata_blocks(data@, lo);
        let ghost indices = spec_indices(all.subrange(first, all.len() as int));
        proof {
            assert(data@ == spec_chunk_data(image@, chunks@[k as int], nr_blocks));
            assert forall|pos: int| 0 <= pos < all.len() implies spec_record_holds(
                codec,
                image@,
                #[trigger] all[pos],
            ) by {
                if pos < first {
                    assert(all[pos] == start[pos]);
                } else {
                    assert(indices[pos - first] == all[pos].0);
                    assert(wanted[pos - first] == all[pos].0);
                    lemma_chunk_records_hold(codec, image@, lo, hi, all[pos]);
                }
            }
        }
        let (more, longer) = append_runs(
            codec,
            Ghost(image@),
            archive,
            &runs,
            Ghost(all),
            Ghost(first / 1024),
            Ghost(now),
            Ghost(held),
        );
        proof {
            now = more@;
            held = longer@;
            assert(start.subrange(0, (first / 1024) * 1024) =~= all.subrange(
                0,
                (first / 1024) * 1024,
            ));
            assert(all.subrange(0, (first / 1024) * 1024) + all.subrange(
                (first / 1024) * 1024,
                (first / 1024 + runs@.len()) * 1024,
            ) =~= all.subrange(0, (all.len() as int / 1024) * 1024));
            assert forall|pos: int| 0 <= pos < (all.len() / 1024) * 1024 implies spec_recorded(
                now,
                (#[trigger] all[pos]).0,
            ) by {
                if pos < (first / 1024) * 1024 {
                    assert(all[pos] == start[pos]);
                    assert(spec_recorded(before, start[pos].0));
                }
            }
            assert forall|done: int, b: u64|
                0 <= done < k && #[trigger] spec_chunk_packs(
                    image@,
                    chunks@[done],
                    b,
                ) implies spec_taken(all, b) by {
                let t = choose|t: int| 0 <= t < start.len() && (#[trigger] start[t]).0 == b;
                assert(all[t].0 == b);
            }
        }
        match status {
            Err(PackError::Encode(e)) => {
                proof {
                    let b = wanted[indices.len() as int];
                    assert(wanted.contains(b));
                    lemma_metadata_members(data@, lo, hi - lo);
                    assert(spec_block(data@, b - lo) =~= spec_block(image@, b as int));
                    assert(spec_encode_failed(codec, image@, e));
                }
                return (Err(PackError::Encode(e)), Ghost(now), Ghost(held), Ghost(all));
            },
            Err(PackError::Compress) => {
                proof {
                    let b = wanted[indices.len() as int];
                    assert(wanted.contains(b));
                    lemma_metadata_members(data@, lo, hi - lo);
                    let block = spec_block(data@, b - lo);
                    assert(block =~= spec_block(image@, b as int));
                    let kind = spec_block_type(block);
                    let payload = choose|payload: Seq<u8>| #[trigger]
                        spec_encoded(codec, kind, block, payload) && spec_run(
                            all.push((b, payload)),
                            (all.len() + 1) / 1024 - 1,
                        ) is None;
                    let due = all.push((b, payload));
                    let group = spec_run_records(due, (all.len() + 1) / 1024 - 1);
                    assert forall|t: int| 0 <= t < group.len() implies spec_record_holds(
                        codec,
                        image@,
                        #[trigger] group[t],
                    ) by {
                        let pos = (all.len() + 1) - 1024 + t;
                        assert(group[t] == due[pos]);
                        if pos < all.len() {
                            assert(due[pos] == all[pos]);
                        }
                    }
                    assert(spec_group_holds(codec, image@, group) && group.len() > 0
                        && spec_run_of(group) is None);
                    assert(spec_compress_failed(codec, image@));
                }
                return (Err(PackError::Compress), Ghost(now), Ghost(held), Ghost(all));
            },
            Ok(_) => {
                proof {
                    assert forall|b: u64| #[trigger]
                        spec_chunk_packs(image@, chunks@[k as int], b) implies spec_taken(
                        all,
                        b,
                    ) by {
                        let t = choose|t: int| 0 <= t < wanted.len() && wanted[t] == b;
                        assert(indices[t] == b);
                        assert(all[first + t].0 == b);
                    }
                    assert forall|a: int, b: int| 0 <= a < b < wanted.len() implies wanted[a]
                        < wanted[b] by {
                        lemma_metadata_members(data@, lo, hi - lo);
                    }
                    lemma_chunk_keeps_apart(image@, chunks@, k as int, start, all, wanted);
                }
            },
        }
        k = k + 1;
    }
    let ghost all = worker.records();
    let ghost pending = worker.spec_pending();
    let ghost before = now;
    proof {
        assert forall|t: int| 0 <= t < pending.len() implies spec_record_holds(
            codec,
            image@,
            #[trigger] pending[t],
        ) by {
            assert(pending[t] == all[all.len() - all.len() % 1024 + t]);
        }
    }
    match worker.finish() {
        Err(e) => {
            proof {
                assert(spec_group_holds(codec, image@, pending) && pending.len() > 0
                    && spec_run_of(pending) is None);
                assert(spec_compress_failed(codec, image@));
            }
            return (Err(e), Ghost(now), Ghost(held), Ghost(all));
        },
        Ok(None) => {
            proof {
                assert(all.subrange(0, (all.len() as int / 1024) * 1024) =~= all);
            }
        },
        Ok(Some(run)) => {
            let size = run.len();
            proof {
                lemma_written_push(codec, image@, archive@, now, held, pending, run@);
                assert(all.subrange(0, (all.len() as int / 1024) * 1024) + pending =~= all);
                now = now.push(pending);
                held = held.push(run@);
            }
            append_bytes(archive, run.as_slice());
        },
    }
    proof {
        assert forall|pos: int| 0 <= pos < all.len() implies spec_recorded(
            now,
            (#[trigger] all[pos]).0,
        ) by {
            let full = (all.len() / 1024) * 1024;
            if pos < full {
                assert(spec_recorded(before, all[pos].0));
            } else {
                assert(all[pos] == pending[pos - full]);
            }
        }
        assert forall|k: int, b: u64|
            0 <= k < chunks@.len() && #[trigger] spec_chunk_packs(
                image@,
                chunks@[k],
                b,
            ) implies spec_recorded(now, b) by {
            let t = choose|t: int| 0 <= t < all.len() && (#[trigger] all[t]).0 == b;
            assert(spec_recorded(now, all[t].0));
        }
    }
    (Ok(()), Ghost(now), Ghost(held), Ghost(all))
}

/// Packs an image that is held in memory, as `nr_jobs` workers would, one
/// after the other. Returns the archive, and the error that stopped the
/// packing, if one did: that of the encoder on a metadata block of the
/// image, or that of the compressor on a run. Where packing was stopped, the
/// archive holds the header and the runs that were filled until then.
pub fn pack<C: BlockCodec>(codec: &C, image: &[u8], nr_jobs: u64) -> (res: (
    Vec<u8>,
    Result<(), PackError>,
))
    requires
        nr_jobs >= 1,
    ensures
        spec_header((image@.len() / 4096) as u64).is_prefix_of(res.0@),
        match res.1 {
            Ok(_) => spec_packed_image(codec, image@, res.0@),
            Err(e) => spec_pack_stopped(codec, image@, e),
        },
{
    let total = image.len();
    let nr_blocks = (total / BLOCK_BYTES) as u64;
    let plan = mk_chunk_vecs(nr_blocks, nr_jobs);
    let ghost buckets = spec_bucket_views(plan@);
    let mut archive: Vec<u8> = Vec::new();
    write_header(&mut archive, nr_blocks);
    let ghost header = spec_header(nr_blocks);
    let ghost mut groups: Seq<Seq<Record>> = Seq::empty();
    let ghost mut frames: Seq<Seq<u8>> = Seq::empty();
    proof {
        lemma_chunk_coverage(buckets, nr_blocks, nr_jobs);
        assert(archive@ =~= header + spec_concat(frames));
    }
    let mut j: usize = 0;
    while j < plan.len()
        invariant
            total == image@.len(),
            nr_blocks == total / 4096,
            j <= plan@.len(),
            buckets == spec_bucket_views(plan@),
            header == spec_header(nr_blocks),
            forall|j: int, k: int|
                0 <= j < buckets.len() && 0 <= k < buckets[j].len() ==> (#[trigger] buckets[j][k]).0
                    < buckets[j][k].1,
            spec_written(codec, image@, archive@, groups, frames),
            forall|done: int, k: int, b: u64|
                0 <= done < j && #[trigger] spec_packed_with(image@, buckets, done, k, b, nr_blocks)
                    ==> spec_recorded(groups, b),
            nr_jobs >= 1,
            spec_is_plan(buckets, nr_blocks, nr_jobs),
            spec_distinct(spec_flat(groups)),
            forall|pos: int|
                0 <= pos < spec_flat(groups).len() ==> spec_from_buckets(
                    image@,
                    buckets,
                    j as int,
                    (#[trigger] spec_flat(groups)[pos]).0,
                    nr_blocks,
                ),
        decreases plan@.len() - j,
    {
        let chunks = &plan[j];
        let ghost before = groups;
        let ghost flat = spec_flat(groups);
        proof {
            assert(buckets[j as int] == chunks@);
            assert forall|k: int| 0 <= k < chunks@.len() implies (#[trigger] chunks@[k]).0
                <= chunks@[k].1 by {
                assert(buckets[j as int][k].0 < buckets[j as int][k].1);
            }
            lemma_plan_packs_metadata_once(image@, buckets, nr_blocks, nr_jobs);
            assert forall|b: u64, k: int, l: int|
                0 <= k < chunks@.len() && 0 <= l < chunks@.len() && #[trigger] spec_chunk_packs(
                    image@,
                    chunks@[k],
                    b,
                ) && #[trigger] spec_chunk_packs(image@, chunks@[l], b) implies k == l by {
                assert(spec_packed_with(image@, buckets, j as int, k, b, nr_blocks));
                assert(spec_packed_with(image@, buckets, j as int, l, b, nr_blocks));
            }
        }
        let (status, more, longer, taken) = pack_chunks(
            codec,
            image,
            chunks,
            &mut archive,
            Ghost(groups),
            Ghost(frames),
        );
        proof {
            groups = more@;
            frames = longer@;
        }
        match status {
            Err(e) => {
                return (archive, Err(e));
            },
            Ok(_) => {
                proof {
                    let all = taken@;
                    let now = spec_flat(groups);
                    assert(now == flat + all);
                    assert forall|pos: int| 0 <= pos < now.len() implies spec_from_buckets(
                        image@,
                        buckets,
                        j + 1,
                        (#[trigger] now[pos]).0,
                        nr_blocks,
                    ) by {
                        if pos < flat.len() {
                            assert(now[pos] == flat[pos]);
                            let (done, k) = choose|done: int, k: int|
                                0 <= done < j && #[trigger] spec_packed_with(
                                    image@,
                                    buckets,
                                    done,
                                    k,
                                    flat[pos].0,
                                    nr_blocks,
                                );
                            assert(spec_packed_with(
                                image@,
                                buckets,
                                done,
                                k,
                                now[pos].0,
                                nr_blocks,
                            ));
                        } else {
                            let at = pos - flat.len();
                            assert(now[pos] == all[at]);
                            let k = choose|k: int|
                                0 <= k < chunks@.len() && spec_chunk_packs(
                                    image@,
                                    #[trigger] chunks@[k],
                                    all[at].0,
                                );
                            assert(spec_packed_with(
                                image@,
                                buckets,
                                j as int,
                                k,
                                now[pos].0,
                                nr_blocks,
                            ));
                        }
                    }
                    assert forall|a: int, b: int| 0 <= a < b < now.len() implies (
                    #[trigger] now[a]).0 != (#[trigger] now[b]).0 by {
                        if b < flat.len() {
                            assert(now[a] == flat[a] && now[b] == flat[b]);
                        } else if a >= flat.len() {
                            assert(now[a] == all[a - flat.len()]);
                            assert(now[b] == all[b - flat.len()]);
                        } else {
                            assert(now[a] == flat[a]);
                            let at = b - flat.len();
                            assert(now[b] == all[at]);
                            if now[a].0 == now[b].0 {
                                let (done, k) = choose|done: int, k: int|
                                    0 <= done < j && #[trigger] spec_packed_with(
                                        image@,
                                        buckets,
                                        done,
                                        k,
                                        flat[a].0,
                                        nr_blocks,
                                    );
                                let l = choose|l: int|
                                    0 <= l < chunks@.len() && spec_chunk_packs(
                                        image@,
                                        #[trigger] chunks@[l],
                                        all[at].0,
                                    );
                                assert(spec_packed_with(
                                    image@,
                                    buckets,
                                    j as int,
                                    l,
                                    now[a].0,
                                    nr_blocks,
                                ));
                                assert(spec_packed_with(
                                    image@,
                                    buckets,
                                    done,
                                    k,
                                    now[a].0,
                                    nr_blocks,
                                ));
                                assert(done == j);
                            }
                        }
                    }
                    assert forall|done: int, k: int, b: u64|
                        0 <= done < j + 1 && #[trigger] spec_packed_with(
                            image@,
                            buckets,
                            done,
                            k,
                            b,
                            nr_blocks,
                        ) implies spec_recorded(groups, b) by {
                        if done < j {
                            assert(spec_recorded(before, b));
                        } else {
                            assert(spec_chunk_packs(image@, chunks@[k], b));
                        }
                    }
                }
            },
        }
        j = j + 1;
    }
    proof {
        lemma_plan_packs_metadata_once(image@, buckets, nr_blocks, nr_jobs);
        assert forall|b: u64|
            b < image@.len() / 4096 && spec_block_type(spec_block(image@, b as int))
                != BlockType::Unknown implies #[trigger] spec_recorded(groups, b) by {
            assert(spec_packed_somewhere(image@, buckets, b, nr_blocks));
            let (j, k) = choose|j: int, k: int| #[trigger]
                spec_packed_with(image@, buckets, j, k, b, nr_blocks);
            assert(spec_recorded(groups, b));
        }
        assert(spec_packs(codec, image@, archive@, groups, frames));
    }
    (archive, Ok(()))
}

/// A block of zeros.
pub open spec fn spec_zeros() -> Seq<u8> {
    Seq::new(4096, |i: int| 0u8)
}

/// In an image to which `written` were written and nothing else, the block
/// at `b` may hold `bytes`: they are the bytes of one of the blocks that
/// were written there, or they are zeros and no block was written there.
pub open spec fn spec_place(written: Seq<Block>, b: int, bytes: Seq<u8>) -> bool {
    ||| exists|t: int|
        0 <= t < written.len() && (#[trigger] written[t]).0 == b && written[t].1 == bytes
    ||| bytes == spec_zeros() && forall|t: int|
        0 <= t < written.len() ==> (#[trigger] written[t]).0 != b
}

/// `image` is what writing `written` to an image of zeros gives: it is made
/// of whole blocks, and each of them is one of the blocks that were written
/// in its place, or zeros where none was.
pub open spec fn spec_restored(image: Seq<u8>, written: Seq<Block>) -> bool {
    &&& image.len() % 4096 == 0
    &&& forall|b: int|
        0 <= b < image.len() / 4096 ==> spec_place(written, b, #[trigger] spec_block(image, b))
}

/// Performs a write on an image in memory, where the image holds the place
/// of the write: the bytes of the write stand at its offset afterwards, and
/// the others are as before. Leaves the image as it is, and says so, where
/// the write does not lie within the image.
pub fn apply_write(image: &mut Vec<u8>, write: &BlockWrite) -> (done: bool)
    ensures
        final(image)@.len() == old(image)@.len(),
        done <==> write.offset + write.data@.len() <= old(image)@.len(),
        !done ==> final(image)@ == old(image)@,
        done ==> forall|p: int|
            0 <= p < old(image)@.len() ==> #[trigger] final(image)@[p] == (if write.offset <= p
                < write.offset + write.data@.len() {
                write.data@[p - write.offset]
            } else {
                old(image)@[p]
            }),
{
    let len = write.data.len();
    let total = image.len();
    if write.offset > total as u64 || len > total - write.offset as usize {
        return false;
    }
    let at = write.offset as usize;
    let mut i: usize = 0;
    while i < len
        invariant
            i <= len,
            len == write.data@.len(),
            at == write.offset,
            at + len <= total,
            image@.len() == total,
            total == old(image)@.len(),
            forall|p: int|
                0 <= p < total ==> #[trigger] image@[p] == (if at <= p < at + i {
                    write.data@[p - at]
                } else {
                    old(image)@[p]
                }),
        decreases len - i,
    {
        image[at + i] = write.data[i];
        i = i + 1;
    }
    true
}

/// An image that was restored from some blocks and to which one more block
/// is written is restored from those and the one more.
proof fn lemma_write_restores(before: Seq<u8>, after: Seq<u8>, written: Seq<Block>, block: Block)
    requires
        spec_restored(before, written),
        after.len() == before.len(),
        block.1.len() == 4096,
        block.0 * 4096 + 4096 <= before.len(),
        forall|p: int|
            0 <= p < before.len() ==> #[trigger] after[p] == (if block.0 * 4096 <= p < block.0
                * 4096 + 4096 {
                block.1[p - block.0 * 4096]
            } else {
                before[p]
            }),
    ensures
        spec_restored(after, written.push(block)),
{
    let more = written.push(block);
    assert forall|b: int| 0 <= b < after.len() / 4096 implies spec_place(
        more,
        b,
        #[trigger] spec_block(after, b),
    ) by {
        if b == block.0 {
            assert(more[written.len() as int] == block);
            assert(spec_block(after, b) =~= block.1);
        } else {
            assert(spec_block(after, b) =~= spec_block(before, b));
            assert(spec_place(written, b, spec_block(before, b)));
            if exists|t: int|
                0 <= t < written.len() && (#[trigger] written[t]).0 == b && written[t].1
                    == spec_block(before, b) {
                let t = choose|t: int|
                    0 <= t < written.len() && (#[trigger] written[t]).0 == b && written[t].1
                        == spec_block(before, b);
                assert(more[t] == written[t]);
            } else {
                assert forall|t: int| 0 <= t < more.len() implies (#[trigger] more[t]).0 != b by {
                    if t < written.len() {
                        assert(more[t] == written[t]);
                    }
                }
            }
        }
    }
}

/// Performs the writes of a batch on an image in memory. Says whether all
/// of them lay within the image; where one did not, the image holds the
/// writes before it.
fn apply_batch(
    image: &mut Vec<u8>,
    batch: &Vec<BlockWrite>,
    Ghost(blocks): Ghost<Seq<Block>>,
    Ghost(written): Ghost<Seq<Block>>,
) -> (res: (bool, Ghost<Seq<Block>>))
    requires
        spec_restored(old(image)@, written),
        spec_write_views(batch@) == spec_writes(blocks),
        forall|t: int| 0 <= t < blocks.len() ==> spec_block_ok(#[trigger] blocks[t]),
    ensures
        final(image)@.len() == old(image)@.len(),
        res.0 <==> forall|t: int|
            0 <= t < blocks.len() ==> (#[trigger] blocks[t]).0 * 4096 + 4096 <= old(image)@.len(),
        spec_restored(final(image)@, res.1@),
        forall|x: Block| res.1@.contains(x) ==> written.contains(x) || blocks.contains(x),
        res.0 ==> forall|x: Block|
            #[trigger] res.1@.contains(x) <==> written.contains(x) || blocks.contains(x),
{
    let ghost mut seen = written;
    let ghost n = blocks.len() as int;
    let mut i: usize = 0;
    proof {
        assert(spec_write_views(batch@).len() == batch@.len());
        assert(spec_writes(blocks).len() == blocks.len());
    }
    while i < batch.len()
        invariant
            i <= batch@.len(),
            batch@.len() == n,
            n == blocks.len(),
            image@.len() == old(image)@.len(),
            spec_write_views(batch@) == spec_writes(blocks),
            forall|t: int| 0 <= t < blocks.len() ==> spec_block_ok(#[trigger] blocks[t]),
            spec_restored(image@, seen),
            forall|t: int|
                n - i <= t < n ==> (#[trigger] blocks[t]).0 * 4096 + 4096 <= image@.len(),
            forall|x: Block|
                #[trigger] seen.contains(x) <==> written.contains(x) || exists|t: int|
                    n - i <= t < n && blocks[t] == x,
        decreases batch@.len() - i,
    {
        let ghost block = blocks[n - 1 - i];
        let ghost before = image@;
        let ghost was = seen;
        proof {
            assert(spec_write_views(batch@)[i as int] == batch@[i as int]@);
            assert(spec_writes(blocks)[i as int] == spec_write(block));
            assert(spec_block_ok(block));
        }
        if !apply_write(image, &batch[i]) {
            return (false, Ghost(seen));
        }
        proof {
            lemma_write_restores(before, image@, seen, block);
            seen = seen.push(block);
            assert forall|x: Block| #[trigger]
                seen.contains(x) <==> written.contains(x) || exists|t: int|
                    n - (i + 1) <= t < n && blocks[t] == x by {
                if seen.contains(x) {
                    let q = choose|q: int| 0 <= q < seen.len() && seen[q] == x;
                    if q < was.len() {
                        assert(was.contains(was[q]));
                    } else {
                        assert(blocks[n - 1 - i] == x);
                    }
                }
                if was.contains(x) {
                    let q = choose|q: int| 0 <= q < was.len() && was[q] == x;
                    assert(seen[q] == x);
                }
                if blocks[n - 1 - i] == x {
                    assert(seen[was.len() as int] == x);
                }
            }
        }
        i = i + 1;
    }
    proof {
        assert forall|x: Block| #[trigger]
            seen.contains(x) <==> written.contains(x) || blocks.contains(x) by {
            if blocks.contains(x) {
                let t = choose|t: int| 0 <= t < blocks.len() && blocks[t] == x;
                assert(n - i <= t < n && blocks[t] == x);
            }
        }
    }
    (true, Ghost(seen))
}

/// Performs the writes of the batches that a worker filled, where the
/// worker took `history` and the first of the batches is its `base`-th.
fn apply_batches(
    image: &mut Vec<u8>,
    batches: &Vec<Vec<BlockWrite>>,
    Ghost(history): Ghost<Seq<Block>>,
    Ghost(base): Ghost<int>,
    Ghost(written): Ghost<Seq<Block>>,
) -> (res: (bool, Ghost<Seq<Block>>))
    requires
        spec_restored(old(image)@, written),
        base >= 0,
        (base + batches@.len()) * 32 <= history.len(),
        forall|t: int|
            0 <= t < batches@.len() ==> spec_write_views((#[trigger] batches@[t])@) == spec_batch(
                history,
                base + t,
            ),
        forall|pos: int| 0 <= pos < history.len() ==> spec_block_ok(#[trigger] history[pos]),
    ensures
        final(image)@.len() == old(image)@.len(),
        !res.0 ==> exists|pos: int|
            0 <= pos < history.len() && (#[trigger] history[pos]).0 * 4096 + 4096 > old(
                image,
            )@.len(),
        spec_restored(final(image)@, res.1@),
        forall|x: Block| res.1@.contains(x) ==> written.contains(x) || history.contains(x),
        res.0 ==> forall|x: Block|
            #[trigger] res.1@.contains(x) <==> written.contains(x) || exists|pos: int|
                base * 32 <= pos < (base + batches@.len()) * 32 && history[pos] == x,
{
    let ghost mut seen = written;
    let mut t: usize = 0;
    while t < batches.len()
        invariant
            t <= batches@.len(),
            base >= 0,
            (base + batches@.len()) * 32 <= history.len(),
            image@.len() == old(image)@.len(),
            forall|t: int|
                0 <= t < batches@.len() ==> spec_write_views((#[trigger] batches@[t])@)
                    == spec_batch(history, base + t),
            forall|pos: int| 0 <= pos < history.len() ==> spec_block_ok(#[trigger] history[pos]),
            spec_restored(image@, seen),
            forall|x: Block|
                #[trigger] seen.contains(x) <==> written.contains(x) || exists|pos: int|
                    base * 32 <= pos < (base + t) * 32 && history[pos] == x,
        decreases batches@.len() - t,
    {
        let ghost blocks = spec_batch_blocks(history, base + t);
        let ghost was = seen;
        proof {
            assert forall|u: int| 0 <= u < blocks.len() implies spec_block_ok(
                #[trigger] blocks[u],
            ) by {
                assert(blocks[u] == history[(base + t) * 32 + u]);
            }
        }
        let (done, more) = apply_batch(image, &batches[t], Ghost(blocks), Ghost(seen));
        if !done {
            proof {
                let u = choose|u: int|
                    0 <= u < blocks.len() && !((#[trigger] blocks[u]).0 * 4096 + 4096
                        <= image@.len());
                assert(blocks[u] == history[(base + t) * 32 + u]);
                assert forall|x: Block| more@.contains(x) implies written.contains(x)
                    || history.contains(x) by {
                    if blocks.contains(x) {
                        let v = choose|v: int| 0 <= v < blocks.len() && blocks[v] == x;
                        assert(history[(base + t) * 32 + v] == x);
                    }
                }
            }
            return (false, more);
        }
        proof {
            seen = more@;
            assert forall|x: Block| #[trigger]
                seen.contains(x) <==> written.contains(x) || exists|pos: int|
                    base * 32 <= pos < (base + t + 1) * 32 && history[pos] == x by {
                if blocks.contains(x) {
                    let u = choose|u: int| 0 <= u < blocks.len() && blocks[u] == x;
                    assert(history[(base + t) * 32 + u] == x);
                }
                if exists|pos: int| base * 32 <= pos < (base + t + 1) * 32 && history[pos] == x {
                    let pos = choose|pos: int|
                        base * 32 <= pos < (base + t + 1) * 32 && history[pos] == x;
                    if pos >= (base + t) * 32 {
                        assert(blocks[pos - (base + t) * 32] == x);
                    }
                }
            }
        }
        t = t + 1;
    }
    (true, Ghost(seen))
}

/// Why an archive could not be unpacked into an image in memory.
#[derive(Clone, Copy, Debug, PartialEq, Eq, Structural)]
pub enum ImageError {
    /// The archive is not well formed.
    Format(FormatError),
    /// A worker was stopped, or a block does not lie within the image.
    Unpack(UnpackError),
    /// The image has more bytes than a buffer can hold.
    TooLarge,
}

/// The number of blocks of the image and the runs that `archive` holds.
pub open spec fn spec_runs_of(archive: Seq<u8>) -> Result<(u64, Seq<Seq<u8>>), FormatError> {
    match spec_read_header(archive) {
        Err(e) => Err(e),
        Ok(nr_blocks) => match spec_split_runs(archive.subrange(32, archive.len() as int)) {
            Err(e) => Err(e),
            Ok(runs) => Ok((nr_blocks, runs)),
        },
    }
}

/// A worker read `blocks` out of `run` and was not stopped.
pub open spec fn spec_run_unpacked<C: BlockCodec>(
    codec: &C,
    run: Seq<u8>,
    blocks: Seq<Block>,
) -> bool {
    spec_inflate(run) matches Some(stream) && spec_run_read(
        codec,
        stream,
        blocks,
        Ok::<(), UnpackError>(()),
    )
}

/// `x` is one of the blocks of `taken`.
pub open spec fn spec_block_read(taken: Seq<Seq<Block>>, x: Block) -> bool {
    exists|i: int, t: int|
        0 <= i < taken.len() && 0 <= t < taken[i].len() && #[trigger] taken[i][t] == x
}

/// `image` is what unpacking `archive` gave: workers read the blocks
/// `taken[i]` out of the `i`-th run, and `image`, of the size that the header
/// says, was restored from just these blocks.
pub open spec fn spec_unpacks<C: BlockCodec>(
    codec: &C,
    archive: Seq<u8>,
    image: Seq<u8>,
    taken: Seq<Seq<Block>>,
    written: Seq<Block>,
) -> bool {
    &&& spec_runs_of(archive) matches Ok(found)
    &&& image.len() == found.0 * 4096
    &&& taken.len() == found.1.len()
    &&& forall|i: int|
        0 <= i < taken.len() ==> spec_run_unpacked(codec, found.1[i], #[trigger] taken[i])
    &&& forall|x: Block| #[trigger] written.contains(x) <==> spec_block_read(taken, x)
    &&& spec_restored(image, written)
}

/// `image` is what unpacking `archive` with `codec` gave.
pub open spec fn spec_unpacked_image<C: BlockCodec>(
    codec: &C,
    archive: Seq<u8>,
    image: Seq<u8>,
) -> bool {
    exists|taken: Seq<Seq<Block>>, written: Seq<Block>| #[trigger]
        spec_unpacks(codec, archive, image, taken, written)
}

/// One of `blocks` does not lie within an image of `nr_blocks` blocks.
pub open spec fn spec_strays(blocks: Seq<Block>, nr_blocks: u64) -> bool {
    exists|t: int| 0 <= t < blocks.len() && (#[trigger] blocks[t]).0 >= nr_blocks
}

/// Unpacking stopped at `run` with the error `e`: the run does not inflate,
/// or a worker was stopped while it read the run, or a block that a worker
/// read out of the run does not lie within an image of `nr_blocks` blocks.
pub open spec fn spec_run_stopped<C: BlockCodec>(
    codec: &C,
    run: Seq<u8>,
    nr_blocks: u64,
    e: UnpackError,
) -> bool {
    match spec_inflate(run) {
        None => e == UnpackError::CorruptRun,
        Some(stream) => {
            ||| exists|blocks: Seq<Block>| #[trigger]
                spec_run_read(codec, stream, blocks, Err::<(), UnpackError>(e))
            ||| e == UnpackError::BlockOutOfRange && exists|
                blocks: Seq<Block>,
                outcome: Result<(), UnpackError>,
            | #[trigger]
                spec_run_read(codec, stream, blocks, outcome) && spec_strays(blocks, nr_blocks)
        },
    }
}

/// A worker read `blocks` out of `run`, whether or not it was stopped after
/// them.
pub open spec fn spec_run_gave<C: BlockCodec>(
    codec: &C,
    run: Seq<u8>,
    blocks: Seq<Block>,
) -> bool {
    spec_inflate(run) matches Some(stream) && exists|outcome: Result<(), UnpackError>| #[trigger]
        spec_run_read(codec, stream, blocks, outcome)
}

/// `image` is what unpacking `archive` left when it was stopped: workers
/// read the blocks `taken[i]` out of the `i`-th run, for some of the runs,
/// and `image`, of the size that the header says, was restored from some of
/// these blocks and from nothing else.
pub open spec fn spec_unpacks_partly<C: BlockCodec>(
    codec: &C,
    archive: Seq<u8>,
    image: Seq<u8>,
    taken: Seq<Seq<Block>>,
    written: Seq<Block>,
) -> bool {
    &&& spec_runs_of(archive) matches Ok(found)
    &&& image.len() == found.0 * 4096
    &&& taken.len() <= found.1.len()
    &&& forall|i: int|
        0 <= i < taken.len() ==> spec_run_gave(codec, found.1[i], #[trigger] taken[i])
    &&& forall|x: Block| #[trigger] written.contains(x) ==> spec_block_read(taken, x)
    &&& spec_restored(image, written)
}

/// `image` is what unpacking `archive` with `codec` left when it was
/// stopped.
pub open spec fn spec_partly_unpacked<C: BlockCodec>(
    codec: &C,
    archive: Seq<u8>,
    image: Seq<u8>,
) -> bool {
    exists|taken: Seq<Seq<Block>>, written: Seq<Block>| #[trigger]
        spec_unpacks_partly(codec, archive, image, taken, written)
}

/// Unpacking `archive` stopped with the error `e` at one of its runs.
pub open spec fn spec_unpack_stopped<C: BlockCodec>(
    codec: &C,
    archive: Seq<u8>,
    e: UnpackError,
) -> bool {
    spec_runs_of(archive) matches Ok(found) && exists|i: int|
        0 <= i < found.1.len() && spec_run_stopped(codec, #[trigger] found.1[i], found.0, e)
}

/// What each of `workers` took.
pub open spec fn spec_histories(workers: Seq<UnpackWorker>) -> Seq<Seq<Block>> {
    Seq::new(workers.len(), |w: int| workers[w].blocks())
}

/// `x` is one of the blocks of one of `histories`.
pub open spec fn spec_block_in(histories: Seq<Seq<Block>>, x: Block) -> bool {
    exists|w: int, pos: int|
        0 <= w < histories.len() && 0 <= pos < histories[w].len() && #[trigger] histories[w][pos]
            == x
}

/// How far unpacking came: the workers took `histories` out of the runs,
/// whose blocks are `taken`, and of these blocks `written` were written: all
/// those that left their worker in a full batch, and all those of the
/// workers after the first `left`, which are done.
#[verifier::opaque]
spec fn spec_tracking(
    histories: Seq<Seq<Block>>,
    left: int,
    taken: Seq<Seq<Block>>,
    written: Seq<Block>,
) -> bool {
    &&& 0 <= left <= histories.len()
    &&& forall|w: int, pos: int|
        0 <= w < left && 0 <= pos < (histories[w].len() / 32) * 32 ==> written.contains(
            #[trigger] histories[w][pos],
        )
    &&& forall|w: int, pos: int|
        left <= w < histories.len() && 0 <= pos < histories[w].len() ==> written.contains(
            #[trigger] histories[w][pos],
        )
    &&& forall|w: int, pos: int|
        0 <= w < histories.len() && 0 <= pos < histories[w].len() ==> spec_block_read(
            taken,
            #[trigger] histories[w][pos],
        )
    &&& forall|x: Block| written.contains(x) ==> spec_block_read(taken, x)
    &&& forall|i: int, t: int|
        0 <= i < taken.len() && 0 <= t < taken[i].len() ==> spec_block_in(
            histories,
            #[trigger] taken[i][t],
        )
}

/// Before the first run nothing was taken and nothing written.
proof fn lemma_tracking_starts(histories: Seq<Seq<Block>>)
    requires
        forall|w: int| 0 <= w < histories.len() ==> (#[trigger] histories[w]).len() == 0,
    ensures
        spec_tracking(histories, histories.len() as int, Seq::empty(), Seq::empty()),
{
    reveal(spec_tracking);
}

/// What a worker holds was read out of some run.
proof fn lemma_tracking_read(
    histories: Seq<Seq<Block>>,
    left: int,
    taken: Seq<Seq<Block>>,
    written: Seq<Block>,
    w: int,
    pos: int,
)
    requires
        spec_tracking(histories, left, taken, written),
        0 <= w < histories.len(),
        0 <= pos < histories[w].len(),
    ensures
        spec_block_read(taken, histories[w][pos]),
{
    reveal(spec_tracking);
}

/// What was written was read out of some run.
proof fn lemma_tracking_written(
    histories: Seq<Seq<Block>>,
    left: int,
    taken: Seq<Seq<Block>>,
    written: Seq<Block>,
)
    requires
        spec_tracking(histories, left, taken, written),
    ensures
        forall|x: Block| written.contains(x) ==> spec_block_read(taken, x),
{
    reveal(spec_tracking);
}

/// A block that was read stays read when more runs are read.
proof fn lemma_read_stays(taken: Seq<Seq<Block>>, fresh: Seq<Block>, x: Block)
    requires
        spec_block_read(taken, x),
    ensures
        spec_block_read(taken.push(fresh), x),
{
    let (i, t) = choose|i: int, t: int|
        0 <= i < taken.len() && 0 <= t < taken[i].len() && #[trigger] taken[i][t] == x;
    assert(taken.push(fresh)[i][t] == x);
}

/// After worker `turn` read one more run, out of which it took `fresh`, what
/// the workers hold was read out of the runs read so far.
proof fn lemma_tracking_takes(
    histories: Seq<Seq<Block>>,
    taken: Seq<Seq<Block>>,
    written: Seq<Block>,
    turn: int,
    fresh: Seq<Block>,
    pos: int,
)
    requires
        spec_tracking(histories, histories.len() as int, taken, written),
        0 <= turn < histories.len(),
        0 <= pos < histories[turn].len() + fresh.len(),
    ensures
        spec_block_read(taken.push(fresh), (histories[turn] + fresh)[pos]),
{
    reveal(spec_tracking);
    let more = taken.push(fresh);
    if pos < histories[turn].len() {
        lemma_read_stays(taken, fresh, histories[turn][pos]);
    } else {
        assert(more[taken.len() as int][pos - histories[turn].len()] == fresh[pos
            - histories[turn].len()]);
    }
}

/// After worker `turn` read one more run, out of which it took `fresh`, and
/// the batches that it filled were written, unpacking has come that much
/// further.
proof fn lemma_tracking_run(
    histories: Seq<Seq<Block>>,
    taken: Seq<Seq<Block>>,
    written: Seq<Block>,
    turn: int,
    fresh: Seq<Block>,
    held: Seq<Block>,
    more: Seq<Block>,
)
    requires
        spec_tracking(histories, histories.len() as int, taken, written),
        0 <= turn < histories.len(),
        held == histories[turn] + fresh,
        forall|x: Block|
            #[trigger] more.contains(x) <==> written.contains(x) || exists|pos: int|
                (histories[turn].len() / 32) * 32 <= pos < (held.len() / 32) * 32 && held[pos]
                    == x,
    ensures
        spec_tracking(
            histories.update(turn, histories[turn] + fresh),
            histories.len() as int,
            taken.push(fresh),
            more,
        ),
{
    reveal(spec_tracking);
    let was = histories[turn];
    let now = was + fresh;
    let after = histories.update(turn, now);
    let all = taken.push(fresh);
    assert forall|w: int, pos: int|
        0 <= w < after.len() && 0 <= pos < (after[w].len() / 32) * 32 implies more.contains(
        #[trigger] after[w][pos],
    ) by {
        if w == turn {
            if pos < (was.len() / 32) * 32 {
                assert(now[pos] == was[pos]);
                assert(written.contains(histories[w][pos]));
            }
        } else {
            assert(written.contains(histories[w][pos]));
        }
    }
    assert forall|w: int, pos: int|
        0 <= w < after.len() && 0 <= pos < after[w].len() implies spec_block_read(
        all,
        #[trigger] after[w][pos],
    ) by {
        if w == turn {
            lemma_tracking_takes(histories, taken, written, turn, fresh, pos);
        } else {
            lemma_read_stays(taken, fresh, histories[w][pos]);
        }
    }
    assert forall|x: Block| more.contains(x) implies spec_block_read(all, x) by {
        if written.contains(x) {
            lemma_read_stays(taken, fresh, x);
        } else {
            let pos = choose|pos: int|
                (was.len() / 32) * 32 <= pos < (now.len() / 32) * 32 && now[pos] == x;
            lemma_tracking_takes(histories, taken, written, turn, fresh, pos);
        }
    }
    assert forall|i: int, t: int|
        0 <= i < all.len() && 0 <= t < all[i].len() implies spec_block_in(
        after,
        #[trigger] all[i][t],
    ) by {
        if i < taken.len() {
            assert(all[i][t] == taken[i][t]);
            let (w, pos) = choose|w: int, pos: int|
                0 <= w < histories.len() && 0 <= pos < histories[w].len()
                    && #[trigger] histories[w][pos] == taken[i][t];
            if w == turn {
                assert(now[pos] == was[pos]);
            }
            assert(after[w][pos] == taken[i][t]);
        } else {
            assert(after[turn][was.len() + t] == fresh[t]);
        }
    }
}

/// After the last of the workers that were left has written what it held,
/// it is done.
proof fn lemma_tracking_finish(
    histories: Seq<Seq<Block>>,
    left: int,
    taken: Seq<Seq<Block>>,
    written: Seq<Block>,
    held: Seq<Block>,
    more: Seq<Block>,
)
    requires
        spec_tracking(histories, left, taken, written),
        left > 0,
        held == histories[left - 1],
        forall|x: Block|
            #[trigger] more.contains(x) <==> written.contains(x) || exists|pos: int|
                (held.len() / 32) * 32 <= pos < held.len() && held[pos] == x,
    ensures
        spec_tracking(histories, left - 1, taken, more),
{
    reveal(spec_tracking);
    assert forall|w: int, pos: int|
        left - 1 <= w < histories.len() && 0 <= pos < histories[w].len() implies more.contains(
        #[trigger] histories[w][pos],
    ) by {
        if w == left - 1 {
            if pos < (histories[w].len() / 32) * 32 {
                assert(written.contains(histories[w][pos]));
            }
        } else {
            assert(written.contains(histories[w][pos]));
        }
    }
    assert forall|w: int, pos: int|
        0 <= w < left - 1 && 0 <= pos < (histories[w].len() / 32) * 32 implies more.contains(
        #[trigger] histories[w][pos],
    ) by {
        assert(written.contains(histories[w][pos]));
    }
}

/// When all workers are done, the blocks that were written are just those
/// that were read out of the runs.
proof fn lemma_tracking_done(
    histories: Seq<Seq<Block>>,
    taken: Seq<Seq<Block>>,
    written: Seq<Block>,
)
    requires
        spec_tracking(histories, 0, taken, written),
    ensures
        forall|x: Block| #[trigger] written.contains(x) <==> spec_block_read(taken, x),
{
    reveal(spec_tracking);
    assert forall|x: Block| #[trigger] written.contains(x) <==> spec_block_read(taken, x) by {
        if spec_block_read(taken, x) {
            let (i, t) = choose|i: int, t: int|
                0 <= i < taken.len() && 0 <= t < taken[i].len() && #[trigger] taken[i][t] == x;
            assert(spec_block_in(histories, taken[i][t]));
            let (w, pos) = choose|w: int, pos: int|
                0 <= w < histories.len() && 0 <= pos < histories[w].len()
                    && #[trigger] histories[w][pos] == x;
            assert(written.contains(histories[w][pos]));
        }
    }
}

/// Unpacking that stopped at a run of the archive stopped.
proof fn lemma_run_stops<C: BlockCodec>(
    codec: &C,
    archive: Seq<u8>,
    runs: Seq<Seq<u8>>,
    nr_blocks: u64,
    i: int,
    e: UnpackError,
)
    requires
        spec_runs_of(archive) == Ok::<(u64, Seq<Seq<u8>>), FormatError>((nr_blocks, runs)),
        0 <= i < runs.len(),
        spec_run_stopped(codec, runs[i], nr_blocks, e),
    ensures
        spec_unpack_stopped(codec, archive, e),
{
    let found = spec_runs_of(archive)->Ok_0;
    assert(found.1[i] == runs[i]);
    assert(spec_run_stopped(codec, found.1[i], found.0, e));
}

/// A block that was read out of a run and does not lie within the image
/// stops the unpacking.
proof fn lemma_stray_stops<C: BlockCodec>(
    codec: &C,
    archive: Seq<u8>,
    runs: Seq<Seq<u8>>,
    nr_blocks: u64,
    taken: Seq<Seq<Block>>,
    x: Block,
)
    requires
        spec_runs_of(archive) == Ok::<(u64, Seq<Seq<u8>>), FormatError>((nr_blocks, runs)),
        taken.len() <= runs.len(),
        forall|i: int|
            0 <= i < taken.len() ==> spec_run_gave(codec, runs[i], #[trigger] taken[i]),
        spec_block_read(taken, x),
        x.0 >= nr_blocks,
    ensures
        spec_unpack_stopped(codec, archive, UnpackError::BlockOutOfRange),
{
    let (i, t) = choose|i: int, t: int|
        0 <= i < taken.len() && 0 <= t < taken[i].len() && #[trigger] taken[i][t] == x;
    assert(spec_run_gave(codec, runs[i], taken[i]));
    assert(spec_strays(taken[i], nr_blocks));
    let stream = spec_inflate(runs[i])->Some_0;
    let outcome = choose|outcome: Result<(), UnpackError>| #[trigger]
        spec_run_read(codec, stream, taken[i], outcome);
    assert(spec_run_read(codec, stream, taken[i], outcome) && spec_strays(taken[i], nr_blocks));
    assert(spec_run_stopped(codec, runs[i], nr_blocks, UnpackError::BlockOutOfRange));
    lemma_run_stops(codec, archive, runs, nr_blocks, i, UnpackError::BlockOutOfRange);
}

/// Unpacks an archive that is held in memory into an image in memory, as
/// `nr_jobs` workers would that get the runs in turn. The image has the size
/// that the header says, holds the blocks that the workers read out of the
/// runs, each in its place, and is zero everywhere else. Returns the image,
/// and the error that stopped the unpacking, if one did; the image then
/// holds what was written until then, and is empty where the archive is not
/// well formed or the image too large.
pub fn unpack<C: BlockCodec>(codec: &C, archive: &[u8], nr_jobs: usize) -> (res: (
    Vec<u8>,
    Result<(), ImageError>,
))
    requires
        nr_jobs >= 1,
    ensures
        match res.1 {
            Ok(_) => spec_unpacked_image(codec, archive@, res.0@),
            Err(ImageError::Format(e)) => {
                &&& spec_runs_of(archive@) == Err::<(u64, Seq<Seq<u8>>), FormatError>(e)
                &&& res.0@.len() == 0
            },
            Err(ImageError::TooLarge) => {
                &&& spec_runs_of(archive@) matches Ok(found) && found.0 * 4096 > usize::MAX
                &&& res.0@.len() == 0
            },
            Err(ImageError::Unpack(e)) => {
                &&& spec_unpack_stopped(codec, archive@, e)
                &&& spec_partly_unpacked(codec, archive@, res.0@)
            },
        },
{
    let nr_blocks = match read_header(archive) {
        Err(e) => {
            return (Vec::new(), Err(ImageError::Format(e)));
        },
        Ok(nr_blocks) => nr_blocks,
    };
    let runs = match split_runs(slice_subrange(archive, HEADER_BYTES, archive.len())) {
        Err(e) => {
            return (Vec::new(), Err(ImageError::Format(e)));
        },
        Ok(runs) => runs,
    };
    let ghost found = (nr_blocks, spec_run_views(runs@));
    assert(spec_runs_of(archive@) == Ok::<(u64, Seq<Seq<u8>>), FormatError>(found));
    if nr_blocks > (usize::MAX / BLOCK_BYTES) as u64 {
        return (Vec::new(), Err(ImageError::TooLarge));
    }
    let size = nr_blocks as usize * BLOCK_BYTES;
    let mut image: Vec<u8> = vec![0u8; size];
    let ghost mut written: Seq<Block> = Seq::empty();
    proof {
        assert forall|b: int| 0 <= b < image@.len() / 4096 implies spec_place(
            written,
            b,
            #[trigger] spec_block(image@, b),
        ) by {
            assert(spec_block(image@, b) =~= spec_zeros());
        }
    }
    let ghost mut taken: Seq<Seq<Block>> = Seq::empty();
    let mut workers: Vec<UnpackWorker> = Vec::new();
    let mut made: usize = 0;
    while made < nr_jobs
        invariant
            made <= nr_jobs,
            workers@.len() == made,
            forall|w: int| 0 <= w < made ==> (#[trigger] workers@[w]).wf(),
            forall|w: int| 0 <= w < made ==> (#[trigger] workers@[w]).blocks().len() == 0,
        decreases nr_jobs - made,
    {
        workers.push(UnpackWorker::new());
        made = made + 1;
    }
    let mut dispatcher = Dispatcher::new(nr_jobs);
    proof {
        let histories = spec_histories(workers@);
        assert forall|w: int| 0 <= w < histories.len() implies (#[trigger] histories[w]).len()
            == 0 by {
            assert(histories[w] == workers@[w].blocks());
        }
        lemma_tracking_starts(histories);
    }
    let mut r: usize = 0;
    while r < runs.len()
        invariant
            r <= runs@.len(),
            nr_jobs >= 1,
            workers@.len() == nr_jobs,
            dispatcher.wf(),
            dispatcher.jobs() == nr_jobs,
            found == (nr_blocks, spec_run_views(runs@)),
            spec_runs_of(archive@) == Ok::<(u64, Seq<Seq<u8>>), FormatError>(found),
            image@.len() == nr_blocks * 4096,
            forall|w: int| 0 <= w < nr_jobs ==> (#[trigger] workers@[w]).wf(),
            spec_restored(image@, written),
            taken.len() == r,
            forall|i: int|
                0 <= i < r ==> spec_run_unpacked(codec, found.1[i], #[trigger] taken[i]),
            spec_tracking(spec_histories(workers@), nr_jobs as int, taken, written),
        decreases runs@.len() - r,
    {
        let turn = dispatcher.dispatch();
        let ghost before = workers@;
        let ghost histories = spec_histories(workers@);
        let ghost start = workers@[turn as int].blocks();
        let ghost first = start.len() as int;
        let ghost old_taken = taken;
        let ghost old_written = written;
        let (batches, status) = workers[turn].decode_run(codec, runs[r].as_slice());
        let ghost history = workers@[turn as int].blocks();
        let ghost fresh = history.subrange(first, history.len() as int);
        proof {
            assert(found.1[r as int] == runs@[r as int]@);
            assert(histories[turn as int] == start);
            assert(history =~= start + fresh);
            assert(spec_histories(workers@) =~= histories.update(turn as int, start + fresh)) by {
                assert forall|w: int| 0 <= w < nr_jobs implies spec_histories(workers@)[w]
                    == histories.update(turn as int, start + fresh)[w] by {
                    if w != turn {
                        assert(workers@[w] == before[w]);
                    }
                }
            }
            assert forall|i: int| 0 <= i < r implies spec_run_gave(
                codec,
                found.1[i],
                #[trigger] old_taken[i],
            ) by {
                assert(spec_run_unpacked(codec, found.1[i], old_taken[i]));
            }
        }
        match status {
            Err(UnpackError::CorruptRun) => {
                proof {
                    assert(spec_run_stopped(
                        codec,
                        found.1[r as int],
                        nr_blocks,
                        UnpackError::CorruptRun,
                    ));
                    lemma_run_stops(
                        codec,
                        archive@,
                        found.1,
                        nr_blocks,
                        r as int,
                        UnpackError::CorruptRun,
                    );
                    lemma_tracking_written(histories, nr_jobs as int, taken, written);
                    assert(spec_unpacks_partly(codec, archive@, image@, taken, written));
                }
                return (image, Err(ImageError::Unpack(UnpackError::CorruptRun)));
            },
            _ => {},
        }
        proof {
            workers@[turn as int].lemma_blocks_ok();
            taken = taken.push(fresh);
            assert(spec_run_gave(codec, found.1[r as int], fresh));
            assert forall|i: int| 0 <= i < r + 1 implies spec_run_gave(
                codec,
                found.1[i],
                #[trigger] taken[i],
            ) by {
                if i < r {
                    assert(taken[i] == old_taken[i]);
                }
            }
        }
        let (done, more) = apply_batches(
            &mut image,
            &batches,
            Ghost(history),
            Ghost(first / 32),
            Ghost(written),
        );
        if !done {
            proof {
                let pos = choose|pos: int|
                    0 <= pos < history.len() && (#[trigger] history[pos]).0 * 4096 + 4096
                        > nr_blocks * 4096;
                lemma_tracking_takes(histories, old_taken, written, turn as int, fresh, pos);
                lemma_stray_stops(codec, archive@, found.1, nr_blocks, taken, history[pos]);
                lemma_tracking_written(histories, nr_jobs as int, old_taken, written);
                assert forall|x: Block| #[trigger] more@.contains(x) implies spec_block_read(
                    taken,
                    x,
                ) by {
                    if written.contains(x) {
                        lemma_read_stays(old_taken, fresh, x);
                    } else {
                        let at = choose|at: int| 0 <= at < history.len() && history[at] == x;
                        lemma_tracking_takes(histories, old_taken, written, turn as int, fresh, at);
                    }
                }
                assert(spec_unpacks_partly(codec, archive@, image@, taken, more@));
            }
            return (image, Err(ImageError::Unpack(UnpackError::BlockOutOfRange)));
        }
        proof {
            lemma_tracking_run(histories, old_taken, written, turn as int, fresh, history, more@);
            written = more@;
        }
        match status {
            Err(e) => {
                proof {
                    assert(spec_run_stopped(codec, found.1[r as int], nr_blocks, e));
                    lemma_run_stops(codec, archive@, found.1, nr_blocks, r as int, e);
                    lemma_tracking_written(
                        spec_histories(workers@),
                        nr_jobs as int,
                        taken,
                        written,
                    );
                    assert(spec_unpacks_partly(codec, archive@, image@, taken, written));
                }
                return (image, Err(ImageError::Unpack(e)));
            },
            Ok(_) => {
                proof {
                    assert forall|i: int| 0 <= i < r + 1 implies spec_run_unpacked(
                        codec,
                        found.1[i],
                        #[trigger] taken[i],
                    ) by {
                        if i < r {
                            assert(taken[i] == old_taken[i]);
                        }
                    }
                }
            },
        }
        r = r + 1;
    }
    let ghost all = workers@;
    let ghost histories = spec_histories(all);
    proof {
        assert forall|i: int| 0 <= i < taken.len() implies spec_run_gave(
            codec,
            found.1[i],
            #[trigger] taken[i],
        ) by {
            assert(spec_run_unpacked(codec, found.1[i], taken[i]));
        }
    }
    loop
        invariant
            workers@.len() <= all.len(),
            all.len() == nr_jobs,
            workers@ == all.subrange(0, workers@.len() as int),
            histories == spec_histories(all),
            found == (nr_blocks, spec_run_views(runs@)),
            spec_runs_of(archive@) == Ok::<(u64, Seq<Seq<u8>>), FormatError>(found),
            image@.len() == nr_blocks * 4096,
            forall|w: int| 0 <= w < nr_jobs ==> (#[trigger] all[w]).wf(),
            spec_restored(image@, written),
            taken.len() == runs@.len(),
            forall|i: int|
                0 <= i < taken.len() ==> spec_run_unpacked(codec, found.1[i], #[trigger] taken[i]),
            forall|i: int|
                0 <= i < taken.len() ==> spec_run_gave(codec, found.1[i], #[trigger] taken[i]),
            spec_tracking(histories, workers@.len() as int, taken, written),
        ensures
            workers@.len() == 0,
        decreases workers@.len(),
    {
        let ghost left = workers@.len() as int;
        let worker = match workers.pop() {
            Some(worker) => worker,
            None => {
                break ;
            },
        };
        assert(worker == all[left - 1]);
        let ghost history = worker.blocks();
        let ghost pending = worker.spec_pending();
        let ghost full = (history.len() / 32) * 32;
        proof {
            assert(histories[left - 1] == history);
            worker.lemma_blocks_ok();
            assert forall|u: int| 0 <= u < pending.len() implies spec_block_ok(
                #[trigger] pending[u],
            ) by {
                assert(pending[u] == history[full + u]);
            }
        }
        let last = worker.finish();
        let (done, more) = apply_batch(&mut image, &last, Ghost(pending), Ghost(written));
        if !done {
            proof {
                let u = choose|u: int|
                    0 <= u < pending.len() && !((#[trigger] pending[u]).0 * 4096 + 4096
                        <= nr_blocks * 4096);
                assert(pending[u] == history[full + u]);
                lemma_tracking_read(histories, left, taken, written, left - 1, full + u);
                lemma_stray_stops(codec, archive@, found.1, nr_blocks, taken, pending[u]);
                lemma_tracking_written(histories, left, taken, written);
                assert forall|x: Block| #[trigger] more@.contains(x) implies spec_block_read(
                    taken,
                    x,
                ) by {
                    if !written.contains(x) {
                        let v = choose|v: int| 0 <= v < pending.len() && pending[v] == x;
                        assert(pending[v] == history[full + v]);
                        lemma_tracking_read(histories, left, taken, written, left - 1, full + v);
                    }
                }
                assert(spec_unpacks_partly(codec, archive@, image@, taken, more@));
            }
            return (image, Err(ImageError::Unpack(UnpackError::BlockOutOfRange)));
        }
        proof {
            assert(workers@ =~= all.subrange(0, left - 1));
            assert forall|x: Block| #[trigger]
                more@.contains(x) <==> written.contains(x) || exists|pos: int|
                    full <= pos < history.len() && history[pos] == x by {
                if pending.contains(x) {
                    let u = choose|u: int| 0 <= u < pending.len() && pending[u] == x;
                    assert(history[full + u] == x);
                }
                if exists|pos: int| full <= pos < history.len() && history[pos] == x {
                    let pos = choose|pos: int| full <= pos < history.len() && history[pos] == x;
                    assert(pending[pos - full] == x);
                }
            }
            lemma_tracking_finish(histories, left, taken, written, history, more@);
            written = more@;
        }
    }
    proof {
        lemma_tracking_done(histories, taken, written);
        assert(spec_unpacks(codec, archive@, image@, taken, written));
    }
    (image, Ok(()))
}

/// What follows the length field of each of `frames`.
pub open spec fn spec_payloads(frames: Seq<Seq<u8>>) -> Seq<Seq<u8>> {
    Seq::new(frames.len(), |i: int| frames[i].subrange(8, frames[i].len() as int))
}

/// The blocks of `image` that `group` holds, each with its number.
pub open spec fn spec_group_blocks(image: Seq<u8>, group: Seq<Record>) -> Seq<Block> {
    Seq::new(group.len(), |t: int| (group[t].0, spec_block(image, group[t].0 as int)))
}

/// Runs that stand one after the other are a body.
proof fn lemma_concat_is_body(frames: Seq<Seq<u8>>, payloads: Seq<Seq<u8>>)
    requires
        frames.len() == payloads.len(),
        forall|i: int| 0 <= i < frames.len() ==> #[trigger] frames[i] == spec_frame(payloads[i]),
    ensures
        spec_concat(frames) == spec_body(payloads),
    decreases frames.len(),
{
    if frames.len() > 0 {
        lemma_concat_is_body(frames.drop_last(), payloads.drop_last());
        lemma_body_push(payloads.drop_last(), payloads.last());
        assert(payloads.drop_last().push(payloads.last()) =~= payloads);
    }
}

/// An archive that holds an image, packed, is well formed: it announces the
/// blocks of the image, and its runs are those that were written, each of
/// which inflates back to the stream of its records.
proof fn lemma_packed_runs<C: BlockCodec>(
    codec: &C,
    image: Seq<u8>,
    archive: Seq<u8>,
    groups: Seq<Seq<Record>>,
    frames: Seq<Seq<u8>>,
)
    requires
        image.len() / 4096 <= u64::MAX,
        spec_written(codec, image, archive, groups, frames),
    ensures
        spec_runs_of(archive) == Ok::<(u64, Seq<Seq<u8>>), FormatError>(
            ((image.len() / 4096) as u64, spec_payloads(frames)),
        ),
        forall|i: int|
            0 <= i < groups.len() ==> spec_inflate(#[trigger] spec_payloads(frames)[i]) == Some(
                spec_stream(groups[i]),
            ),
{
    let nr_blocks = (image.len() / 4096) as u64;
    let payloads = spec_payloads(frames);
    let body = spec_concat(frames);
    assert forall|i: int| 0 <= i < frames.len() implies #[trigger] frames[i] == spec_frame(
        payloads[i],
    ) && payloads[i].len() <= u64::MAX by {
        assert(spec_sealed(groups[i], frames[i]));
        let compressed = spec_deflate(spec_stream(groups[i]))->Some_0;
        assert(frames[i] == spec_frame(compressed));
        lemma_frame_payload(compressed);
        assert(payloads[i] =~= compressed);
    }
    lemma_concat_is_body(frames, payloads);
    lemma_body_round_trip(payloads);
    lemma_header_round_trip(nr_blocks, body);
    assert(archive.subrange(32, archive.len() as int) =~= body) by {
        lemma_header_len(nr_blocks);
    }
}

/// Where the decoder undoes the encoder, what a worker reads out of a run of
/// a packed image are the blocks of the image that the records of the run
/// hold, and the worker is not stopped.
proof fn lemma_group_round_trip<C: BlockCodec>(
    codec: &C,
    image: Seq<u8>,
    group: Seq<Record>,
    blocks: Seq<Block>,
    outcome: Result<(), UnpackError>,
)
    requires
        spec_codec_inverts(codec),
        spec_group_holds(codec, image, group),
        spec_run_read(codec, spec_stream(group), blocks, outcome),
    ensures
        outcome is Ok,
        blocks == spec_group_blocks(image, group),
{
    let sources = Seq::new(group.len(), |t: int| spec_block(image, group[t].0 as int));
    lemma_run_round_trip(codec, group, sources, blocks, outcome);
    assert(blocks =~= spec_group_blocks(image, group));
}

/// Unpacking what was packed does not stop: where the decoder undoes the
/// encoder, an archive that holds an image, packed, is well formed, and no
/// worker that unpacks it is stopped at any of its runs.
pub proof fn lemma_packed_image_unpacks<C: BlockCodec>(
    codec: &C,
    image: Seq<u8>,
    archive: Seq<u8>,
)
    requires
        spec_codec_inverts(codec),
        image.len() / 4096 <= u64::MAX,
        spec_packed_image(codec, image, archive),
    ensures
        spec_runs_of(archive) is Ok,
        spec_runs_of(archive)->Ok_0.0 == image.len() / 4096,
        forall|e: UnpackError| !spec_unpack_stopped(codec, archive, e),
{
    let (groups, frames) = choose|groups: Seq<Seq<Record>>, frames: Seq<Seq<u8>>| #[trigger]
        spec_packs(codec, image, archive, groups, frames);
    lemma_packed_runs(codec, image, archive, groups, frames);
    let nr_blocks = (image.len() / 4096) as u64;
    let payloads = spec_payloads(frames);
    assert forall|e: UnpackError| !spec_unpack_stopped(codec, archive, e) by {
        if spec_unpack_stopped(codec, archive, e) {
            let found = spec_runs_of(archive)->Ok_0;
            let i = choose|i: int|
                0 <= i < found.1.len() && spec_run_stopped(
                    codec,
                    #[trigger] found.1[i],
                    found.0,
                    e,
                );
            let stream = spec_stream(groups[i]);
            assert(spec_inflate(payloads[i]) == Some(stream));
            assert(spec_group_holds(codec, image, groups[i]));
            if exists|blocks: Seq<Block>| #[trigger]
                spec_run_read(codec, stream, blocks, Err::<(), UnpackError>(e)) {
                let blocks = choose|blocks: Seq<Block>| #[trigger]
                    spec_run_read(codec, stream, blocks, Err::<(), UnpackError>(e));
                lemma_group_round_trip(codec, image, groups[i], blocks, Err(e));
            } else {
                let (blocks, outcome) = choose|
                    blocks: Seq<Block>,
                    outcome: Result<(), UnpackError>,
                | #[trigger]
                    spec_run_read(codec, stream, blocks, outcome) && spec_strays(blocks, nr_blocks);
                lemma_group_round_trip(codec, image, groups[i], blocks, outcome);
                let t = choose|t: int|
                    0 <= t < blocks.len() && (#[trigger] blocks[t]).0 >= nr_blocks;
                assert(spec_record_holds(codec, image, groups[i][t]));
            }
        }
    }
}

/// Packing and then unpacking restores the metadata of an image and leaves
/// zeros everywhere else: where the decoder undoes the encoder, an image
/// that was unpacked from an archive that holds `image`, packed, has as many
/// whole blocks as `image`, and each of its bytes is the byte of `image` in
/// a metadata block of `image` and zero in any other block. The numbers of
/// workers that packed and unpacked do not matter.
pub proof fn lemma_image_round_trip<C: BlockCodec>(
    codec: &C,
    image: Seq<u8>,
    archive: Seq<u8>,
    restored: Seq<u8>,
)
    requires
        spec_codec_inverts(codec),
        image.len() / 4096 <= u64::MAX,
        spec_packed_image(codec, image, archive),
        spec_unpacked_image(codec, archive, restored),
    ensures
        restored.len() == (image.len() / 4096) * 4096,
        forall|b: int|
            0 <= b < image.len() / 4096 ==> #[trigger] spec_block(restored, b) == (
            if spec_block_type(spec_block(image, b)) != BlockType::Unknown {
                spec_block(image, b)
            } else {
                spec_zeros()
            }),
        forall|p: int|
            0 <= p < restored.len() ==> #[trigger] restored[p] == (if spec_block_type(
                spec_block(image, p / 4096),
            ) != BlockType::Unknown {
                image[p]
            } else {
                0u8
            }),
{
    let (groups, frames) = choose|groups: Seq<Seq<Record>>, frames: Seq<Seq<u8>>| #[trigger]
        spec_packs(codec, image, archive, groups, frames);
    let (taken, written) = choose|taken: Seq<Seq<Block>>, written: Seq<Block>| #[trigger]
        spec_unpacks(codec, archive, restored, taken, written);
    lemma_packed_runs(codec, image, archive, groups, frames);
    let nr_blocks = (image.len() / 4096) as u64;
    let payloads = spec_payloads(frames);
    // What was read out of each run are the blocks that its records hold.
    assert forall|i: int| 0 <= i < taken.len() implies #[trigger] taken[i] == spec_group_blocks(
        image,
        groups[i],
    ) by {
        assert(spec_run_unpacked(codec, payloads[i], taken[i]));
        assert(spec_inflate(payloads[i]) == Some(spec_stream(groups[i])));
        assert(spec_group_holds(codec, image, groups[i]));
        lemma_group_round_trip(codec, image, groups[i], taken[i], Ok(()));
    }
    assert forall|b: int| 0 <= b < image.len() / 4096 implies #[trigger] spec_block(restored, b)
        == (if spec_block_type(spec_block(image, b)) != BlockType::Unknown {
        spec_block(image, b)
    } else {
        spec_zeros()
    }) by {
        let bytes = spec_block(restored, b);
        assert(spec_place(written, b, bytes));
        if exists|t: int|
            0 <= t < written.len() && (#[trigger] written[t]).0 == b && written[t].1 == bytes {
            let q = choose|t: int|
                0 <= t < written.len() && (#[trigger] written[t]).0 == b && written[t].1 == bytes;
            assert(written.contains(written[q]));
            assert(spec_block_read(taken, written[q]));
            let (i, t) = choose|i: int, t: int|
                0 <= i < taken.len() && 0 <= t < taken[i].len() && #[trigger] taken[i][t]
                    == written[q];
            assert(taken[i] == spec_group_blocks(image, groups[i]));
            assert(spec_record_holds(codec, image, groups[i][t]));
        } else {
            if spec_block_type(spec_block(image, b)) != BlockType::Unknown {
                assert(spec_recorded(groups, b as u64));
                let (i, t) = choose|i: int, t: int|
                    0 <= i < groups.len() && 0 <= t < groups[i].len() && (
                    #[trigger] groups[i][t]).0 == b as u64;
                assert(taken[i] == spec_group_blocks(image, groups[i]));
                assert(taken[i][t].0 == b);
                assert(spec_block_read(taken, taken[i][t]));
                assert(written.contains(taken[i][t]));
                let q = choose|q: int| 0 <= q < written.len() && written[q] == taken[i][t];
                assert(written[q].0 == b);
            }
        }
    }
    assert forall|p: int| 0 <= p < restored.len() implies #[trigger] restored[p] == (
    if spec_block_type(spec_block(image, p / 4096)) != BlockType::Unknown {
        image[p]
    } else {
        0u8
    }) by {
        let b = p / 4096;
        assert(restored[p] == spec_block(restored, b)[p % 4096]);
        assert(image[p] == spec_block(image, b)[p % 4096]);
    }
}

/// The number of workers does not change the restored image: where the
/// decoder undoes the encoder, two archives that hold the same image,
/// packed, by whatever numbers of workers and with their runs in whatever
/// order, unpack to the same image.
pub proof fn lemma_worker_counts_restore_the_same<C: BlockCodec>(
    codec: &C,
    image: Seq<u8>,
    some: Seq<u8>,
    other: Seq<u8>,
    from_some: Seq<u8>,
    from_other: Seq<u8>,
)
    requires
        spec_codec_inverts(codec),
        image.len() / 4096 <= u64::MAX,
        spec_packed_image(codec, image, some),
        spec_packed_image(codec, image, other),
        spec_unpacked_image(codec, some, from_some),
        spec_unpacked_image(codec, other, from_other),
    ensures
        from_some == from_other,
{
    lemma_image_round_trip(codec, image, some, from_some);
    lemma_image_round_trip(codec, image, other, from_other);
    assert(from_some =~= from_other);
}

/// An image without metadata packs to its header alone, and packing it is
/// not stopped.
pub proof fn lemma_nothing_to_pack<C: BlockCodec>(
    codec: &C,
    image: Seq<u8>,
    archive: Seq<u8>,
    outcome: Result<(), PackError>,
)
    requires
        forall|b: int|
            0 <= b < image.len() / 4096 ==> spec_block_type(#[trigger] spec_block(image, b))
                == BlockType::Unknown,
        match outcome {
            Ok(_) => spec_packed_image(codec, image, archive),
            Err(e) => spec_pack_stopped(codec, image, e),
        },
    ensures
        outcome is Ok,
        archive == spec_header((image.len() / 4096) as u64),
{
    match outcome {
        Ok(_) => {
            let (groups, frames) = choose|groups: Seq<Seq<Record>>, frames: Seq<Seq<u8>>|
                #[trigger] spec_packs(codec, image, archive, groups, frames);
            if groups.len() > 0 {
                assert(spec_group_holds(codec, image, groups[0]));
                assert(spec_record_holds(codec, image, groups[0][0]));
                assert(spec_block_type(spec_block(image, groups[0][0].0 as int))
                    == BlockType::Unknown);
            }
            assert(frames =~= Seq::<Seq<u8>>::empty());
            assert(archive =~= spec_header((image.len() / 4096) as u64));
        },
        Err(PackError::Encode(e)) => {
            let b = choose|b: u64|
                b < image.len() / 4096 && spec_block_type(spec_block(image, b as int))
                    != BlockType::Unknown && #[trigger] spec_refused(
                    codec,
                    spec_block_type(spec_block(image, b as int)),
                    spec_block(image, b as int),
                    e,
                );
            assert(spec_block_type(spec_block(image, b as int)) == BlockType::Unknown);
        },
        Err(PackError::Compress) => {
            let group = choose|group: Seq<Record>| #[trigger]
                spec_group_holds(codec, image, group) && group.len() > 0 && spec_run_of(group)
                    is None;
            assert(spec_record_holds(codec, image, group[0]));
            assert(spec_block_type(spec_block(image, group[0].0 as int)) == BlockType::Unknown);
        },
    }
}

/// `x` is one of the records of `groups`.
pub open spec fn spec_grouped(groups: Seq<Seq<Record>>, x: Record) -> bool {
    exists|i: int, t: int|
        0 <= i < groups.len() && 0 <= t < groups[i].len() && #[trigger] groups[i][t] == x
}

/// The records of all groups, one after the other, are just the records of
/// the groups.
proof fn lemma_flat_members(groups: Seq<Seq<Record>>)
    ensures
        forall|i: int, t: int|
            0 <= i < groups.len() && 0 <= t < groups[i].len() ==> spec_flat(groups).contains(
                #[trigger] groups[i][t],
            ),
        forall|pos: int|
            0 <= pos < spec_flat(groups).len() ==> spec_grouped(
                groups,
                #[trigger] spec_flat(groups)[pos],
            ),
    decreases groups.len(),
{
    let flat = spec_flat(groups);
    if groups.len() > 0 {
        let front = groups.drop_last();
        let last = groups.last();
        let before = spec_flat(front);
        lemma_flat_members(front);
        assert forall|i: int, t: int|
            0 <= i < groups.len() && 0 <= t < groups[i].len() implies flat.contains(
            #[trigger] groups[i][t],
        ) by {
            if i < front.len() {
                assert(front[i][t] == groups[i][t]);
                let pos = choose|pos: int| 0 <= pos < before.len() && before[pos] == front[i][t];
                assert(flat[pos] == groups[i][t]);
            } else {
                assert(flat[before.len() + t] == groups[i][t]);
            }
        }
        assert forall|pos: int| 0 <= pos < flat.len() implies spec_grouped(
            groups,
            #[trigger] flat[pos],
        ) by {
            if pos < before.len() {
                assert(spec_grouped(front, before[pos]));
                let (i, t) = choose|i: int, t: int|
                    0 <= i < front.len() && 0 <= t < front[i].len() && #[trigger] front[i][t]
                        == before[pos];
                assert(groups[i][t] == flat[pos]);
            } else {
                assert(groups[groups.len() - 1][pos - before.len()] == flat[pos]);
            }
        }
    }
}

/// An archive that holds an image, packed, holds each metadata block of the
/// image once and nothing else: over all runs, the number of records with
/// the block number `b` is one where `b` is a metadata block of the image,
/// and none for any other `b`.
pub proof fn lemma_packed_once<C: BlockCodec>(
    codec: &C,
    image: Seq<u8>,
    archive: Seq<u8>,
    groups: Seq<Seq<Record>>,
    frames: Seq<Seq<u8>>,
)
    requires
        spec_packs(codec, image, archive, groups, frames),
    ensures
        forall|b: u64|
            #[trigger] spec_indices(spec_flat(groups)).to_multiset().count(b) == (if b
                < image.len() / 4096 && spec_block_type(spec_block(image, b as int))
                != BlockType::Unknown {
                1nat
            } else {
                0nat
            }),
{
    let flat = spec_flat(groups);
    let indices = spec_indices(flat);
    lemma_flat_members(groups);
    assert(indices.no_duplicates()) by {
        assert forall|a: int, b: int|
            0 <= a < indices.len() && 0 <= b < indices.len() && a != b implies indices[a]
            != indices[b] by {
            if a < b {
                assert(flat[a].0 != flat[b].0);
            } else {
                assert(flat[b].0 != flat[a].0);
            }
        }
    }
    indices.lemma_multiset_has_no_duplicates();
    indices.to_multiset_ensures();
    assert forall|b: u64| #[trigger]
        indices.to_multiset().count(b) == (if b < image.len() / 4096 && spec_block_type(
            spec_block(image, b as int),
        ) != BlockType::Unknown {
            1nat
        } else {
            0nat
        }) by {
        if b < image.len() / 4096 && spec_block_type(spec_block(image, b as int))
            != BlockType::Unknown {
            assert(spec_recorded(groups, b));
            let (i, t) = choose|i: int, t: int|
                0 <= i < groups.len() && 0 <= t < groups[i].len() && (#[trigger] groups[i][t]).0
                    == b;
            assert(flat.contains(groups[i][t]));
            let pos = choose|pos: int| 0 <= pos < flat.len() && flat[pos] == groups[i][t];
            assert(indices[pos] == b);
            assert(indices.contains(b));
            assert(indices.to_multiset().contains(b));
        } else {
            if indices.contains(b) {
                let pos = choose|pos: int| 0 <= pos < indices.len() && indices[pos] == b;
                assert(spec_grouped(groups, flat[pos]));
                let (i, t) = choose|i: int, t: int|
                    0 <= i < groups.len() && 0 <= t < groups[i].len() && #[trigger] groups[i][t]
                        == flat[pos];
                assert(spec_group_holds(codec, image, groups[i]));
                assert(spec_record_holds(codec, image, groups[i][t]));
            }
        }
    }
}

/// The number of workers does not change which blocks an archive holds: two
/// archives that hold the same image, packed, by whatever numbers of workers
/// and with their runs in whatever order, hold records for the same block
/// numbers, each as often.
pub proof fn lemma_packs_hold_the_same_blocks<C: BlockCodec>(
    codec: &C,
    image: Seq<u8>,
    some: Seq<u8>,
    some_groups: Seq<Seq<Record>>,
    some_frames: Seq<Seq<u8>>,
    other: Seq<u8>,
    other_groups: Seq<Seq<Record>>,
    other_frames: Seq<Seq<u8>>,
)
    requires
        spec_packs(codec, image, some, some_groups, some_frames),
        spec_packs(codec, image, other, other_groups, other_frames),
    ensures
        spec_indices(spec_flat(some_groups)).to_multiset() == spec_indices(
            spec_flat(other_groups),
        ).to_multiset(),
{
    lemma_packed_once(codec, image, some, some_groups, some_frames);
    lemma_packed_once(codec, image, other, other_groups, other_frames);
    assert(spec_indices(spec_flat(some_groups)).to_multiset() =~= spec_indices(
        spec_flat(other_groups),
    ).to_multiset());
}

/// The encoder of `codec` gives one short form for a block: whenever it is
/// handed the same bytes as a block of the same kind, and does not refuse
/// them, it gives the same short form.
pub open spec fn spec_encoder_settled<C: BlockCodec>(codec: &C) -> bool {
    forall|kind: BlockType, a: &[u8], b: &[u8], p: Vec<u8>, q: Vec<u8>|
        #![trigger
            call_ensures(C::encode, (codec, kind, a), Ok::<Vec<u8>, EncodeError>(p)),
            call_ensures(C::encode, (codec, kind, b), Ok::<Vec<u8>, EncodeError>(q))
        ]
        a@ == b@ && call_ensures(C::encode, (codec, kind, a), Ok::<Vec<u8>, EncodeError>(p))
            && call_ensures(C::encode, (codec, kind, b), Ok::<Vec<u8>, EncodeError>(q)) ==> p@
            == q@
}

/// Where the encoder gives one short form for a block, two records that
/// hold the same block of an image are the same record.
proof fn lemma_one_record_for_a_block<C: BlockCodec>(
    codec: &C,
    image: Seq<u8>,
    x: Record,
    y: Record,
)
    requires
        spec_encoder_settled(codec),
        spec_record_holds(codec, image, x),
        spec_record_holds(codec, image, y),
        x.0 == y.0,
    ensures
        x == y,
{
    let block = spec_block(image, x.0 as int);
    let kind = spec_block_type(block);
    let (a, p) = choose|a: &[u8], p: Vec<u8>|
        a@ == block && p@ == x.1 && #[trigger] call_ensures(
            C::encode,
            (codec, kind, a),
            Ok::<Vec<u8>, EncodeError>(p),
        );
    let (b, q) = choose|b: &[u8], q: Vec<u8>|
        b@ == block && q@ == y.1 && #[trigger] call_ensures(
            C::encode,
            (codec, kind, b),
            Ok::<Vec<u8>, EncodeError>(q),
        );
    assert(call_ensures(C::encode, (codec, kind, a), Ok::<Vec<u8>, EncodeError>(p)));
    assert(call_ensures(C::encode, (codec, kind, b), Ok::<Vec<u8>, EncodeError>(q)));
    assert(x.1 == y.1);
}

/// In an archive that holds an image, packed, no record stands twice, and
/// each record holds a metadata block of the image.
proof fn lemma_packed_records<C: BlockCodec>(
    codec: &C,
    image: Seq<u8>,
    archive: Seq<u8>,
    groups: Seq<Seq<Record>>,
    frames: Seq<Seq<u8>>,
)
    requires
        spec_packs(codec, image, archive, groups, frames),
    ensures
        spec_flat(groups).no_duplicates(),
        forall|pos: int|
            0 <= pos < spec_flat(groups).len() ==> spec_record_holds(
                codec,
                image,
                #[trigger] spec_flat(groups)[pos],
            ),
{
    let flat = spec_flat(groups);
    lemma_flat_members(groups);
    assert forall|a: int, b: int|
        0 <= a < flat.len() && 0 <= b < flat.len() && a != b implies flat[a] != flat[b] by {
        if a < b {
            assert(flat[a].0 != flat[b].0);
        } else {
            assert(flat[b].0 != flat[a].0);
        }
    }
    assert forall|pos: int| 0 <= pos < flat.len() implies spec_record_holds(
        codec,
        image,
        #[trigger] flat[pos],
    ) by {
        assert(spec_grouped(groups, flat[pos]));
        let (i, t) = choose|i: int, t: int|
            0 <= i < groups.len() && 0 <= t < groups[i].len() && #[trigger] groups[i][t]
                == flat[pos];
        assert(spec_group_holds(codec, image, groups[i]));
    }
}

/// Each record of one of two archives that hold the same image, packed,
/// stands in the other, where the encoder gives one short form for a block.
proof fn lemma_record_in_both<C: BlockCodec>(
    codec: &C,
    image: Seq<u8>,
    some: Seq<u8>,
    some_groups: Seq<Seq<Record>>,
    some_frames: Seq<Seq<u8>>,
    other: Seq<u8>,
    other_groups: Seq<Seq<Record>>,
    other_frames: Seq<Seq<u8>>,
    x: Record,
)
    requires
        spec_encoder_settled(codec),
        spec_packs(codec, image, some, some_groups, some_frames),
        spec_packs(codec, image, other, other_groups, other_frames),
        spec_flat(some_groups).contains(x),
    ensures
        spec_flat(other_groups).contains(x),
{
    let flat = spec_flat(some_groups);
    let there = spec_flat(other_groups);
    lemma_packed_records(codec, image, some, some_groups, some_frames);
    lemma_packed_records(codec, image, other, other_groups, other_frames);
    lemma_flat_members(other_groups);
    let pos = choose|pos: int| 0 <= pos < flat.len() && flat[pos] == x;
    assert(spec_record_holds(codec, image, flat[pos]));
    assert(spec_recorded(other_groups, x.0));
    let (i, t) = choose|i: int, t: int|
        0 <= i < other_groups.len() && 0 <= t < other_groups[i].len() && (
        #[trigger] other_groups[i][t]).0 == x.0;
    let y = other_groups[i][t];
    assert(there.contains(y));
    let at = choose|at: int| 0 <= at < there.len() && there[at] == y;
    assert(spec_record_holds(codec, image, there[at]));
    lemma_one_record_for_a_block(codec, image, x, y);
}

/// The number of workers does not change the records that an archive holds:
/// where the encoder gives one short form for a block, two archives that
/// hold the same image, packed, by whatever numbers of workers, hold the
/// same records, each once; only how the records are gathered into runs, and
/// the order of the runs, may differ.
pub proof fn lemma_packs_hold_the_same_records<C: BlockCodec>(
    codec: &C,
    image: Seq<u8>,
    some: Seq<u8>,
    some_groups: Seq<Seq<Record>>,
    some_frames: Seq<Seq<u8>>,
    other: Seq<u8>,
    other_groups: Seq<Seq<Record>>,
    other_frames: Seq<Seq<u8>>,
)
    requires
        spec_encoder_settled(codec),
        spec_packs(codec, image, some, some_groups, some_frames),
        spec_packs(codec, image, other, other_groups, other_frames),
    ensures
        spec_flat(some_groups).to_multiset() == spec_flat(other_groups).to_multiset(),
{
    let flat = spec_flat(some_groups);
    let there = spec_flat(other_groups);
    lemma_packed_records(codec, image, some, some_groups, some_frames);
    lemma_packed_records(codec, image, other, other_groups, other_frames);
    flat.lemma_multiset_has_no_duplicates();
    there.lemma_multiset_has_no_duplicates();
    flat.to_multiset_ensures();
    there.to_multiset_ensures();
    assert forall|x: Record| flat.to_multiset().count(x) == there.to_multiset().count(x) by {
        if flat.contains(x) {
            lemma_record_in_both(
                codec,
                image,
                some,
                some_groups,
                some_frames,
                other,
                other_groups,
                other_frames,
                x,
            );
            assert(flat.to_multiset().contains(x));
            assert(there.to_multiset().contains(x));
        }
        if there.contains(x) {
            lemma_record_in_both(
                codec,
                image,
                other,
                other_groups,
                other_frames,
                some,
                some_groups,
                some_frames,
                x,
            );
            assert(flat.to_multiset().contains(x));
            assert(there.to_multiset().contains(x));
        }
    }
    assert(flat.to_multiset() =~= there.to_multiset());
}

} // verus!
