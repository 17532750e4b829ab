use flate2::write::ZlibEncoder;
use flate2::Compression;
use std::io::Write;
use thinp_pack::block::{checksum, BlockType, INDEX_CSUM_XOR, MAX_BLOCKS, SUPERBLOCK_CSUM_XOR};
use thinp_pack::codec::{BlockCodec, DecodeError, EncodeError, Reconstructed};
use thinp_pack::unpack::{
    next_record, size_output, write_blocks, write_zero_block, BlockWrite, Dispatcher,
    UnpackError, UnpackWorker, FLUSH_BLOCKS,
};

struct WholeBlocks;

impl BlockCodec for WholeBlocks {
    fn encode(&self, _kind: BlockType, block: &[u8]) -> Result<Vec<u8>, EncodeError> {
        Ok(block.to_vec())
    }

    fn reconstruct(&self, source: &[u8], block_size: usize) -> Result<Reconstructed, DecodeError> {
        if source.len() < block_size {
            return Err(DecodeError::ParseError);
        }
        Ok(Reconstructed {
            block: source[..block_size].to_vec(),
            consumed: block_size,
        })
    }
}

/// Claims to have used one byte more than there is.
struct Greedy;

impl BlockCodec for Greedy {
    fn encode(&self, _kind: BlockType, _block: &[u8]) -> Result<Vec<u8>, EncodeError> {
        Err(EncodeError::IOError)
    }

    fn reconstruct(&self, source: &[u8], block_size: usize) -> Result<Reconstructed, DecodeError> {
        Ok(Reconstructed {
            block: source[..block_size].to_vec(),
            consumed: source.len() + 1,
        })
    }
}

fn unpack_block_with_tag(seed: u8, tag: u32) -> Vec<u8> {
    let mut b = vec![0u8; 4096];
    for i in 4..4096 {
        b[i] = (i as u8).wrapping_mul(13).wrapping_add(seed);
    }
    let stored = checksum(&b) ^ tag;
    b[0..4].copy_from_slice(&stored.to_le_bytes());
    b
}

fn compressed(stream: &[u8]) -> Vec<u8> {
    let mut z = ZlibEncoder::new(Vec::new(), Compression::default());
    z.write_all(stream).unwrap();
    z.finish().unwrap()
}

fn stream_of(records: &[(u64, Vec<u8>)]) -> Vec<u8> {
    let mut s = Vec::new();
    for (index, payload) in records {
        s.extend_from_slice(&index.to_le_bytes());
        s.extend_from_slice(payload);
    }
    s
}

#[test]
fn batch_holds_32_blocks() {
    assert_eq!(FLUSH_BLOCKS, 32);
}

#[test]
fn zero_block_write_is_at_its_offset() {
    assert_eq!(
        write_zero_block(0),
        Ok(BlockWrite {
            offset: 0,
            data: vec![0u8; 4096]
        })
    );
    assert_eq!(
        write_zero_block(3),
        Ok(BlockWrite {
            offset: 12288,
            data: vec![0u8; 4096]
        })
    );
    assert_eq!(
        write_zero_block(MAX_BLOCKS),
        Ok(BlockWrite {
            offset: MAX_BLOCKS * 4096,
            data: vec![0u8; 4096]
        })
    );
}

#[test]
fn zero_block_out_of_reach_is_refused() {
    assert_eq!(
        write_zero_block(MAX_BLOCKS + 1),
        Err(UnpackError::BlockOutOfRange)
    );
    assert_eq!(write_zero_block(u64::MAX), Err(UnpackError::BlockOutOfRange));
}

#[test]
fn output_is_sized_by_its_last_block() {
    assert_eq!(size_output(0), Ok(None));
    assert_eq!(
        size_output(1),
        Ok(Some(BlockWrite {
            offset: 0,
            data: vec![0u8; 4096]
        }))
    );
    assert_eq!(
        size_output(1000),
        Ok(Some(BlockWrite {
            offset: 999 * 4096,
            data: vec![0u8; 4096]
        }))
    );
    assert_eq!(size_output(MAX_BLOCKS + 2), Err(UnpackError::BlockOutOfRange));
    assert_eq!(size_output(u64::MAX), Err(UnpackError::BlockOutOfRange));
}

#[test]
fn write_blocks_writes_the_last_block_first() {
    let mut blocks = vec![(1u64, vec![1u8, 1]), (5, vec![5]), (2, vec![])];
    let ws = write_blocks(&mut blocks);
    assert!(blocks.is_empty());
    assert_eq!(
        ws,
        vec![
            BlockWrite {
                offset: 8192,
                data: vec![]
            },
            BlockWrite {
                offset: 20480,
                data: vec![5]
            },
            BlockWrite {
                offset: 4096,
                data: vec![1, 1]
            },
        ]
    );
    let mut none: Vec<(u64, Vec<u8>)> = Vec::new();
    assert_eq!(write_blocks(&mut none), vec![]);
}

#[test]
fn next_record_reads_a_block_number() {
    let data = [1u8, 0, 0, 0, 0, 0, 0, 0, 0xaa, 0, 1, 0, 0, 0, 0, 0, 0];
    assert_eq!(next_record(&data, 0), Ok(Some((1, 8))));
    assert_eq!(next_record(&data, 9), Ok(Some((256, 17))));
    assert_eq!(next_record(&data, 8), Ok(Some((0x0001_00aa, 16))));
    assert_eq!(next_record(&data, 17), Ok(None));
    assert_eq!(next_record(&[], 0), Ok(None));
    assert_eq!(next_record(&[0xff; 8], 0), Ok(Some((u64::MAX, 8))));
}

#[test]
fn next_record_refuses_a_block_number_cut_short() {
    let data = [1u8, 0, 0, 0, 0, 0, 0, 0, 0xaa, 0, 1, 0, 0, 0, 0, 0, 0];
    assert_eq!(next_record(&data, 10), Err(UnpackError::TruncatedRecord));
    assert_eq!(next_record(&data, 16), Err(UnpackError::TruncatedRecord));
    assert_eq!(next_record(&[5], 0), Err(UnpackError::TruncatedRecord));
    assert_eq!(
        next_record(&[1, 2, 3, 4, 5, 6, 7], 0),
        Err(UnpackError::TruncatedRecord)
    );
}

#[test]
fn the_32nd_block_fills_a_batch() {
    let block = unpack_block_with_tag(1, SUPERBLOCK_CSUM_XOR);
    let mut w = UnpackWorker::new();
    for i in 0..31u64 {
        assert_eq!(w.push_block(i * 2, block.clone()), Ok(None));
    }
    let batch = w.push_block(1000, block.clone()).unwrap().unwrap();
    assert_eq!(batch.len(), 32);
    assert_eq!(batch[0].offset, 1000 * 4096);
    for i in 1..32usize {
        assert_eq!(batch[i].offset, (31 - i as u64) * 2 * 4096);
        assert_eq!(batch[i].data, block);
    }
    // The worker starts over.
    assert_eq!(w.push_block(7, block.clone()), Ok(None));
    assert_eq!(
        w.finish(),
        vec![BlockWrite {
            offset: 7 * 4096,
            data: block
        }]
    );
}

#[test]
fn new_worker_has_nothing_to_write() {
    assert_eq!(UnpackWorker::new().finish(), vec![]);
}

#[test]
fn unknown_block_is_refused() {
    let mut w = UnpackWorker::new();
    assert_eq!(
        w.push_block(1, vec![0u8; 4096]),
        Err(UnpackError::UnknownBlock)
    );
    assert_eq!(w.push_block(1, vec![]), Err(UnpackError::UnknownBlock));
    let mut long = unpack_block_with_tag(1, SUPERBLOCK_CSUM_XOR);
    long.push(0);
    assert_eq!(w.push_block(1, long), Err(UnpackError::UnknownBlock));
    // Unknown is reported before out of range.
    assert_eq!(
        w.push_block(u64::MAX, vec![0u8; 4096]),
        Err(UnpackError::UnknownBlock)
    );
    assert_eq!(w.finish(), vec![]);
}

#[test]
fn block_out_of_reach_is_refused() {
    let block = unpack_block_with_tag(1, INDEX_CSUM_XOR);
    let mut w = UnpackWorker::new();
    assert_eq!(
        w.push_block(MAX_BLOCKS + 1, block.clone()),
        Err(UnpackError::BlockOutOfRange)
    );
    assert_eq!(
        w.push_block(u64::MAX, block.clone()),
        Err(UnpackError::BlockOutOfRange)
    );
    assert_eq!(w.push_block(MAX_BLOCKS, block.clone()), Ok(None));
    assert_eq!(
        w.finish(),
        vec![BlockWrite {
            offset: MAX_BLOCKS * 4096,
            data: block
        }]
    );
}

#[test]
fn overrun_is_refused() {
    let block = unpack_block_with_tag(1, INDEX_CSUM_XOR);
    let mut w = UnpackWorker::new();
    let over = Reconstructed {
        block: block.clone(),
        consumed: 11,
    };
    assert_eq!(w.take_block(3, over, 10), Err(UnpackError::RecordOverrun));
    let fits = Reconstructed {
        block: block.clone(),
        consumed: 10,
    };
    assert_eq!(w.take_block(3, fits, 10), Ok(None));
    let bad = Reconstructed {
        block: vec![0u8; 4096],
        consumed: 11,
    };
    // Overrun is reported before anything about the block.
    assert_eq!(w.take_block(3, bad, 10), Err(UnpackError::RecordOverrun));
    assert_eq!(w.finish().len(), 1);
}

#[test]
fn corrupt_run_is_refused() {
    let mut w = UnpackWorker::new();
    let (batches, status) = w.decode_run(&WholeBlocks, &[1, 2, 3, 4, 5]);
    assert!(batches.is_empty());
    assert_eq!(status, Err(UnpackError::CorruptRun));
    let (batches, status) = w.decode_run(&WholeBlocks, &[]);
    assert!(batches.is_empty());
    assert_eq!(status, Err(UnpackError::CorruptRun));
    let good = compressed(&[1, 2, 3]);
    let (_, status) = w.decode_run(&WholeBlocks, &good[..good.len() - 2]);
    assert_eq!(status, Err(UnpackError::CorruptRun));
    assert_eq!(w.finish(), vec![]);
}

#[test]
fn run_without_a_record_gives_nothing() {
    let mut w = UnpackWorker::new();
    let (batches, status) = w.decode_run(&WholeBlocks, &compressed(&[]));
    assert!(batches.is_empty());
    assert_eq!(status, Ok(()));
    assert_eq!(w.finish(), vec![]);
}

#[test]
fn run_that_ends_inside_a_block_number_stops_the_worker() {
    for left in 1..8usize {
        let mut w = UnpackWorker::new();
        let stream = vec![0u8; left];
        let (batches, status) = w.decode_run(&WholeBlocks, &compressed(&stream));
        assert!(batches.is_empty());
        assert_eq!(status, Err(UnpackError::TruncatedRecord));
        assert_eq!(w.finish(), vec![]);
    }
}

#[test]
fn decode_run_rebuilds_each_record() {
    let a = unpack_block_with_tag(1, SUPERBLOCK_CSUM_XOR);
    let b = unpack_block_with_tag(2, INDEX_CSUM_XOR);
    let run = compressed(&stream_of(&[(4, a.clone()), (9, b.clone())]));
    let mut w = UnpackWorker::new();
    let (batches, status) = w.decode_run(&WholeBlocks, &run);
    assert!(batches.is_empty());
    assert_eq!(status, Ok(()));
    assert_eq!(
        w.finish(),
        vec![
            BlockWrite {
                offset: 9 * 4096,
                data: b
            },
            BlockWrite {
                offset: 4 * 4096,
                data: a
            },
        ]
    );
}

#[test]
fn trailing_bytes_short_of_a_block_number_stop_the_worker() {
    let a = unpack_block_with_tag(1, SUPERBLOCK_CSUM_XOR);
    let mut stream = stream_of(&[(4, a.clone())]);
    stream.extend_from_slice(&[1, 2, 3]);
    let mut w = UnpackWorker::new();
    let (batches, status) = w.decode_run(&WholeBlocks, &compressed(&stream));
    assert!(batches.is_empty());
    assert_eq!(status, Err(UnpackError::TruncatedRecord));
    // The block before the stray bytes was taken.
    assert_eq!(
        w.finish(),
        vec![BlockWrite {
            offset: 4 * 4096,
            data: a
        }]
    );
}

#[test]
fn decoder_error_stops_the_worker() {
    let a = unpack_block_with_tag(1, SUPERBLOCK_CSUM_XOR);
    let mut stream = stream_of(&[(4, a.clone())]);
    // A block number, then too little for a block.
    stream.extend_from_slice(&7u64.to_le_bytes());
    stream.extend_from_slice(&[0u8; 100]);
    let mut w = UnpackWorker::new();
    let (batches, status) = w.decode_run(&WholeBlocks, &compressed(&stream));
    assert!(batches.is_empty());
    assert_eq!(
        status,
        Err(UnpackError::Reconstruct(DecodeError::ParseError))
    );
    // The block before the error was taken.
    assert_eq!(
        w.finish(),
        vec![BlockWrite {
            offset: 4 * 4096,
            data: a
        }]
    );
}

/// Cannot read.
struct Broken;

impl BlockCodec for Broken {
    fn encode(&self, _kind: BlockType, _block: &[u8]) -> Result<Vec<u8>, EncodeError> {
        Err(EncodeError::IOError)
    }

    fn reconstruct(&self, _source: &[u8], _block_size: usize) -> Result<Reconstructed, DecodeError> {
        Err(DecodeError::IOError)
    }
}

#[test]
fn decoder_io_error_stops_the_worker() {
    let a = unpack_block_with_tag(1, SUPERBLOCK_CSUM_XOR);
    let stream = stream_of(&[(4, a)]);
    let mut w = UnpackWorker::new();
    let (batches, status) = w.decode_run(&Broken, &compressed(&stream));
    assert!(batches.is_empty());
    assert_eq!(status, Err(UnpackError::Reconstruct(DecodeError::IOError)));
    assert_eq!(w.finish(), vec![]);
}

#[test]
fn rebuilt_block_that_is_unknown_stops_the_worker() {
    let stream = stream_of(&[(4, vec![0u8; 4096])]);
    let mut w = UnpackWorker::new();
    let (batches, status) = w.decode_run(&WholeBlocks, &compressed(&stream));
    assert!(batches.is_empty());
    assert_eq!(status, Err(UnpackError::UnknownBlock));
    assert_eq!(w.finish(), vec![]);
}

#[test]
fn record_out_of_reach_stops_the_worker() {
    let a = unpack_block_with_tag(1, SUPERBLOCK_CSUM_XOR);
    let stream = stream_of(&[(u64::MAX, a)]);
    let mut w = UnpackWorker::new();
    let (_, status) = w.decode_run(&WholeBlocks, &compressed(&stream));
    assert_eq!(status, Err(UnpackError::BlockOutOfRange));
}

#[test]
fn decoder_that_overruns_stops_the_worker() {
    let a = unpack_block_with_tag(1, SUPERBLOCK_CSUM_XOR);
    let stream = stream_of(&[(4, a)]);
    let mut w = UnpackWorker::new();
    let (_, status) = w.decode_run(&Greedy, &compressed(&stream));
    assert_eq!(status, Err(UnpackError::RecordOverrun));
}

#[test]
fn decode_run_returns_the_batches_it_fills() {
    let block = unpack_block_with_tag(3, SUPERBLOCK_CSUM_XOR);
    let records: Vec<(u64, Vec<u8>)> = (0..70u64).map(|i| (i + 100, block.clone())).collect();
    let run = compressed(&stream_of(&records));
    let mut w = UnpackWorker::new();
    let (batches, status) = w.decode_run(&WholeBlocks, &run);
    assert_eq!(status, Ok(()));
    assert_eq!(batches.len(), 2);
    for (t, batch) in batches.iter().enumerate() {
        assert_eq!(batch.len(), 32);
        for (i, wr) in batch.iter().enumerate() {
            let index = 100 + (t as u64) * 32 + (31 - i as u64);
            assert_eq!(wr.offset, index * 4096);
            assert_eq!(wr.data, block);
        }
    }
    let last = w.finish();
    assert_eq!(last.len(), 6);
    for (i, wr) in last.iter().enumerate() {
        assert_eq!(wr.offset, (100 + 64 + 5 - i as u64) * 4096);
    }
}

#[test]
fn blocks_gather_over_several_runs() {
    let block = unpack_block_with_tag(3, SUPERBLOCK_CSUM_XOR);
    let mut w = UnpackWorker::new();
    let mut filled = 0;
    for r in 0..4u64 {
        let records: Vec<(u64, Vec<u8>)> = (0..10u64).map(|i| (r * 10 + i, block.clone())).collect();
        let (batches, status) = w.decode_run(&WholeBlocks, &compressed(&stream_of(&records)));
        assert_eq!(status, Ok(()));
        if r < 3 {
            assert!(batches.is_empty());
        } else {
            assert_eq!(batches.len(), 1);
            assert_eq!(batches[0][0].offset, 31 * 4096);
            assert_eq!(batches[0][31].offset, 0);
        }
        filled += batches.len();
    }
    assert_eq!(filled, 1);
    assert_eq!(w.finish().len(), 8);
}

#[test]
fn runs_go_to_the_workers_in_turn() {
    let mut d = Dispatcher::new(3);
    let got: Vec<usize> = (0..8).map(|_| d.dispatch()).collect();
    assert_eq!(got, vec![0, 1, 2, 0, 1, 2, 0, 1]);
    let mut one = Dispatcher::new(1);
    assert_eq!(one.dispatch(), 0);
    assert_eq!(one.dispatch(), 0);
}
