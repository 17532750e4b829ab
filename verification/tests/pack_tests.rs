use flate2::read::ZlibDecoder;
use std::io::Read;
use thinp_pack::block::{checksum, BlockType, BTREE_CSUM_XOR, SUPERBLOCK_CSUM_XOR};
use thinp_pack::codec::{BlockCodec, DecodeError, EncodeError, Reconstructed};
use thinp_pack::pack::{check, seal_run, PackError, PackWorker, RUN_RECORDS};

struct Whole;

impl BlockCodec for Whole {
    fn encode(&self, _kind: BlockType, block: &[u8]) -> Result<Vec<u8>, EncodeError> {
        Ok(block.to_vec())
    }

    fn reconstruct(&self, source: &[u8], block_size: usize) -> Result<Reconstructed, DecodeError> {
        if source.len() < block_size {
            return Err(DecodeError::ParseError);
        }
        Ok(Reconstructed {
            block: source[..block_size].to_vec(),
            consumed: block_size,
        })
    }
}

/// Stores the kind and the first sixteen bytes of a block; refuses B-tree nodes.
struct Short;

impl BlockCodec for Short {
    fn encode(&self, kind: BlockType, block: &[u8]) -> Result<Vec<u8>, EncodeError> {
        let tag = match kind {
            BlockType::Superblock => 1u8,
            BlockType::BTreeNode => return Err(EncodeError::ParseError),
            BlockType::Index => 3,
            BlockType::Bitmap => 4,
            BlockType::Unknown => return Err(EncodeError::IOError),
        };
        let mut p = vec![tag];
        p.extend_from_slice(&block[..16]);
        Ok(p)
    }

    fn reconstruct(&self, _source: &[u8], _block_size: usize) -> Result<Reconstructed, DecodeError> {
        Err(DecodeError::IOError)
    }
}

fn pack_block_with_tag(seed: u8, tag: u32) -> Vec<u8> {
    let mut b = vec![0u8; 4096];
    for i in 4..4096 {
        b[i] = (i as u8).wrapping_mul(17).wrapping_add(seed);
    }
    let stored = checksum(&b) ^ tag;
    b[0..4].copy_from_slice(&stored.to_le_bytes());
    b
}

fn pack_plain_block(seed: u8) -> Vec<u8> {
    let mut b = vec![0u8; 4096];
    for i in 0..4096 {
        b[i] = (i as u8).wrapping_mul(7).wrapping_add(seed);
    }
    b
}

/// Takes a stored run apart: checks the length field and inflates the rest.
fn stream_of_run(run: &[u8]) -> Vec<u8> {
    let mut len = [0u8; 8];
    len.copy_from_slice(&run[..8]);
    assert_eq!(u64::from_le_bytes(len), (run.len() - 8) as u64);
    let mut out = Vec::new();
    ZlibDecoder::new(&run[8..]).read_to_end(&mut out).unwrap();
    out
}

fn record_bytes(index: u64, payload: &[u8]) -> Vec<u8> {
    let mut r = index.to_le_bytes().to_vec();
    r.extend_from_slice(payload);
    r
}

#[test]
fn run_holds_1024_records() {
    assert_eq!(RUN_RECORDS, 1024);
}

#[test]
fn check_passes_payloads_and_maps_errors() {
    assert_eq!(check(Ok(vec![1, 2, 3])), Ok(vec![1, 2, 3]));
    assert_eq!(check(Ok(vec![])), Ok(vec![]));
    assert_eq!(
        check(Err(EncodeError::ParseError)),
        Err(PackError::Encode(EncodeError::ParseError))
    );
    assert_eq!(
        check(Err(EncodeError::IOError)),
        Err(PackError::Encode(EncodeError::IOError))
    );
}

#[test]
fn seal_run_frames_or_fails() {
    assert_eq!(
        seal_run(Some(vec![9, 8, 7])),
        Ok(vec![3, 0, 0, 0, 0, 0, 0, 0, 9, 8, 7])
    );
    assert_eq!(seal_run(Some(vec![])), Ok(vec![0u8; 8]));
    assert_eq!(seal_run(None), Err(PackError::Compress));
}

#[test]
fn new_worker_has_nothing_to_flush() {
    assert_eq!(PackWorker::new().finish(), Ok(None));
}

#[test]
fn partial_run_is_flushed_at_the_end() {
    let mut w = PackWorker::new();
    assert_eq!(w.add_record(5, &[1, 2, 3]), Ok(None));
    assert_eq!(w.add_record(9, &[]), Ok(None));
    assert_eq!(w.add_record(u64::MAX, &[0xff]), Ok(None));
    let run = w.finish().unwrap().unwrap();
    let mut expected = record_bytes(5, &[1, 2, 3]);
    expected.extend_from_slice(&record_bytes(9, &[]));
    expected.extend_from_slice(&record_bytes(u64::MAX, &[0xff]));
    assert_eq!(stream_of_run(&run), expected);
}

#[test]
fn compressed_run_differs_from_its_stream() {
    let mut w = PackWorker::new();
    let payload = vec![0u8; 4000];
    assert_eq!(w.add_record(1, &payload), Ok(None));
    let run = w.finish().unwrap().unwrap();
    // Four thousand zeros compress well.
    assert!(run.len() < 200);
    assert_eq!(stream_of_run(&run), record_bytes(1, &payload));
}

#[test]
fn the_1024th_record_fills_a_run() {
    let mut w = PackWorker::new();
    let mut expected = Vec::new();
    for i in 0..1023u64 {
        let payload = [i as u8, (i >> 8) as u8];
        assert_eq!(w.add_record(i * 3, &payload), Ok(None));
        expected.extend_from_slice(&record_bytes(i * 3, &payload));
    }
    let res = w.add_record(7777, &[42]);
    expected.extend_from_slice(&record_bytes(7777, &[42]));
    let run = res.unwrap().unwrap();
    assert_eq!(stream_of_run(&run), expected);
    // The worker starts over.
    assert_eq!(w.add_record(1, &[1]), Ok(None));
    let last = w.finish().unwrap().unwrap();
    assert_eq!(stream_of_run(&last), record_bytes(1, &[1]));
}

#[test]
fn full_run_leaves_nothing_to_flush() {
    let mut w = PackWorker::new();
    for i in 0..1023u64 {
        assert_eq!(w.add_record(i, &[]), Ok(None));
    }
    assert!(w.add_record(1023, &[]).unwrap().is_some());
    assert_eq!(w.finish(), Ok(None));
}

#[test]
fn pack_block_encodes_and_takes_the_record() {
    let mut w = PackWorker::new();
    let block = pack_block_with_tag(1, SUPERBLOCK_CSUM_XOR);
    assert_eq!(
        w.pack_block(&Short, 77, BlockType::Superblock, &block),
        Ok(None)
    );
    let run = w.finish().unwrap().unwrap();
    let mut payload = vec![1u8];
    payload.extend_from_slice(&block[..16]);
    assert_eq!(stream_of_run(&run), record_bytes(77, &payload));
}

#[test]
fn pack_block_reports_the_encoder_error() {
    let mut w = PackWorker::new();
    let block = pack_block_with_tag(1, BTREE_CSUM_XOR);
    assert_eq!(
        w.pack_block(&Short, 77, BlockType::BTreeNode, &block),
        Err(PackError::Encode(EncodeError::ParseError))
    );
    // Nothing was taken.
    assert_eq!(w.finish(), Ok(None));
}

#[test]
fn crunch_skips_unknown_blocks() {
    let meta0 = pack_block_with_tag(1, SUPERBLOCK_CSUM_XOR);
    let meta2 = pack_block_with_tag(2, BTREE_CSUM_XOR);
    let mut data = meta0.clone();
    data.extend_from_slice(&pack_plain_block(3));
    data.extend_from_slice(&meta2);
    data.extend_from_slice(&vec![0u8; 4096]);
    let mut w = PackWorker::new();
    let (runs, status) = w.crunch(&Whole, 10, &data);
    assert_eq!(status, Ok(()));
    assert!(runs.is_empty());
    let run = w.finish().unwrap().unwrap();
    let mut expected = record_bytes(10, &meta0);
    expected.extend_from_slice(&record_bytes(12, &meta2));
    assert_eq!(stream_of_run(&run), expected);
}

#[test]
fn crunch_of_unknown_blocks_takes_nothing() {
    let mut data = pack_plain_block(1);
    data.extend_from_slice(&pack_plain_block(2));
    let mut w = PackWorker::new();
    let (runs, status) = w.crunch(&Short, 0, &data);
    assert_eq!(status, Ok(()));
    assert!(runs.is_empty());
    assert_eq!(w.finish(), Ok(None));
}

#[test]
fn crunch_of_no_blocks_takes_nothing() {
    let mut w = PackWorker::new();
    let (runs, status) = w.crunch(&Whole, 5, &[]);
    assert_eq!(status, Ok(()));
    assert!(runs.is_empty());
    assert_eq!(w.finish(), Ok(None));
}

#[test]
fn crunch_stops_at_an_encoder_error() {
    let first = pack_block_with_tag(1, SUPERBLOCK_CSUM_XOR);
    let mut data = first.clone();
    data.extend_from_slice(&pack_block_with_tag(2, BTREE_CSUM_XOR));
    data.extend_from_slice(&pack_block_with_tag(3, SUPERBLOCK_CSUM_XOR));
    let mut w = PackWorker::new();
    let (runs, status) = w.crunch(&Short, 100, &data);
    assert_eq!(status, Err(PackError::Encode(EncodeError::ParseError)));
    assert!(runs.is_empty());
    // The block before the error was taken, the one after it was not.
    let run = w.finish().unwrap().unwrap();
    let mut payload = vec![1u8];
    payload.extend_from_slice(&first[..16]);
    assert_eq!(stream_of_run(&run), record_bytes(100, &payload));
}

#[test]
fn crunch_returns_the_runs_it_fills() {
    let block = pack_block_with_tag(9, SUPERBLOCK_CSUM_XOR);
    let mut payload = vec![1u8];
    payload.extend_from_slice(&block[..16]);
    let mut data = Vec::new();
    for _ in 0..1030 {
        data.extend_from_slice(&block);
    }
    let mut w = PackWorker::new();
    let (runs, status) = w.crunch(&Short, 50, &data);
    assert_eq!(status, Ok(()));
    assert_eq!(runs.len(), 1);
    let mut expected = Vec::new();
    for i in 0..1024u64 {
        expected.extend_from_slice(&record_bytes(50 + i, &payload));
    }
    assert_eq!(stream_of_run(&runs[0]), expected);
    let last = w.finish().unwrap().unwrap();
    let mut rest = Vec::new();
    for i in 1024..1030u64 {
        rest.extend_from_slice(&record_bytes(50 + i, &payload));
    }
    assert_eq!(stream_of_run(&last), rest);
}

#[test]
fn records_gather_over_several_chunks() {
    let block = pack_block_with_tag(4, SUPERBLOCK_CSUM_XOR);
    let mut w = PackWorker::new();
    let (runs, status) = w.crunch(&Whole, 0, &block);
    assert_eq!((runs.len(), status), (0, Ok(())));
    let (runs, status) = w.crunch(&Whole, 4096, &block);
    assert_eq!((runs.len(), status), (0, Ok(())));
    let run = w.finish().unwrap().unwrap();
    let mut expected = record_bytes(0, &block);
    expected.extend_from_slice(&record_bytes(4096, &block));
    assert_eq!(stream_of_run(&run), expected);
}
