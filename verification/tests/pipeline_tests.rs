use thinp_pack::block::{
    checksum, get_nr_blocks, metadata_block_type, read_blocks, BlockType, BITMAP_CSUM_XOR,
    BTREE_CSUM_XOR, INDEX_CSUM_XOR, SUPERBLOCK_CSUM_XOR,
};
use thinp_pack::codec::{BlockCodec, DecodeError, EncodeError, Reconstructed};
use thinp_pack::container::{read_header, split_runs, write_header};
use thinp_pack::pack::PackWorker;
use thinp_pack::planner::{clamp_chunk, mk_chunk_vecs};
use thinp_pack::unpack::{size_output, BlockWrite, Dispatcher, UnpackWorker};

/// Stores a block without the zeros at its end.
struct Trimmed;

impl BlockCodec for Trimmed {
    fn encode(&self, _kind: BlockType, block: &[u8]) -> Result<Vec<u8>, EncodeError> {
        let mut n = block.len();
        while n > 0 && block[n - 1] == 0 {
            n -= 1;
        }
        let mut p = (n as u16).to_le_bytes().to_vec();
        p.extend_from_slice(&block[..n]);
        Ok(p)
    }

    fn reconstruct(&self, source: &[u8], block_size: usize) -> Result<Reconstructed, DecodeError> {
        if source.len() < 2 {
            return Err(DecodeError::ParseError);
        }
        let n = u16::from_le_bytes([source[0], source[1]]) as usize;
        if n > block_size || source.len() < 2 + n {
            return Err(DecodeError::ParseError);
        }
        let mut block = source[2..2 + n].to_vec();
        block.resize(block_size, 0);
        Ok(Reconstructed {
            block,
            consumed: 2 + n,
        })
    }
}

fn next_random(state: &mut u64) -> u64 {
    *state ^= *state << 13;
    *state ^= *state >> 7;
    *state ^= *state << 17;
    *state
}

/// An image in which about one block in three is metadata, of all four
/// kinds, and the others hold random bytes.
fn synthetic_image(nr_blocks: usize, seed: u64) -> Vec<u8> {
    let tags = [
        SUPERBLOCK_CSUM_XOR,
        BTREE_CSUM_XOR,
        INDEX_CSUM_XOR,
        BITMAP_CSUM_XOR,
    ];
    let mut state = seed | 1;
    let mut image = vec![0u8; nr_blocks * 4096];
    for b in 0..nr_blocks {
        let block = &mut image[b * 4096..(b + 1) * 4096];
        let filled = (next_random(&mut state) % 4000) as usize + 8;
        for byte in block[..filled].iter_mut() {
            *byte = next_random(&mut state) as u8;
        }
        if next_random(&mut state) % 3 == 0 {
            let tag = tags[(next_random(&mut state) % 4) as usize];
            let stored = checksum(block) ^ tag;
            block[0..4].copy_from_slice(&stored.to_le_bytes());
        }
    }
    image
}

fn pack_image(image: &[u8], nr_jobs: u64) -> Vec<u8> {
    let nr_blocks = get_nr_blocks(image.len() as u64);
    let mut archive = Vec::new();
    write_header(&mut archive, nr_blocks);
    for chunks in mk_chunk_vecs(nr_blocks, nr_jobs) {
        let mut worker = PackWorker::new();
        for chunk in chunks {
            let (lo, hi) = clamp_chunk(chunk, nr_blocks);
            let (offset, len) = read_blocks(lo, hi - lo).unwrap();
            let data = &image[offset as usize..offset as usize + len];
            let (runs, status) = worker.crunch(&Trimmed, lo, data);
            assert_eq!(status, Ok(()));
            for run in runs {
                archive.extend_from_slice(&run);
            }
        }
        if let Some(run) = worker.finish().unwrap() {
            archive.extend_from_slice(&run);
        }
    }
    archive
}

fn apply(image: &mut Vec<u8>, writes: Vec<BlockWrite>) {
    for w in writes {
        let at = w.offset as usize;
        image[at..at + w.data.len()].copy_from_slice(&w.data);
    }
}

fn unpack_image(archive: &[u8], nr_jobs: usize) -> Vec<u8> {
    let nr_blocks = read_header(archive).unwrap();
    let mut image = vec![0xeeu8; 0];
    if let Some(w) = size_output(nr_blocks).unwrap() {
        image.resize(w.offset as usize, 0);
        image.extend_from_slice(&w.data);
    }
    let runs = split_runs(&archive[32..]).unwrap();
    let mut workers: Vec<UnpackWorker> = (0..nr_jobs).map(|_| UnpackWorker::new()).collect();
    let mut dispatcher = Dispatcher::new(nr_jobs);
    for run in runs {
        let (batches, status) = workers[dispatcher.dispatch()].decode_run(&Trimmed, &run);
        assert_eq!(status, Ok(()));
        for batch in batches {
            apply(&mut image, batch);
        }
    }
    for worker in workers {
        apply(&mut image, worker.finish());
    }
    image
}

fn expected_image(image: &[u8]) -> Vec<u8> {
    let mut out = vec![0u8; image.len() / 4096 * 4096];
    for b in 0..image.len() / 4096 {
        let block = &image[b * 4096..(b + 1) * 4096];
        if metadata_block_type(block) != BlockType::Unknown {
            out[b * 4096..(b + 1) * 4096].copy_from_slice(block);
        }
    }
    out
}

#[test]
fn round_trip_restores_metadata_and_zeroes_the_rest() {
    let image = synthetic_image(700, 0x1234_5678);
    let expected = expected_image(&image);
    // Some blocks are metadata and some are not.
    assert_ne!(expected, image);
    assert_ne!(expected, vec![0u8; image.len()]);
    let archive = pack_image(&image, 3);
    let restored = unpack_image(&archive, 4);
    assert_eq!(restored.len(), image.len());
    assert!(restored == expected);
}

#[test]
fn round_trip_with_full_runs() {
    // Enough metadata for runs of 1024 records.
    let mut image = synthetic_image(4000, 99);
    let mut state = 5u64;
    for b in 0..4000 {
        let block = &mut image[b * 4096..(b + 1) * 4096];
        if next_random(&mut state) % 8 != 0 {
            let stored = checksum(block) ^ BTREE_CSUM_XOR;
            block[0..4].copy_from_slice(&stored.to_le_bytes());
        }
    }
    let expected = expected_image(&image);
    let archive = pack_image(&image, 2);
    let restored = unpack_image(&archive, 3);
    assert!(restored == expected);
}

#[test]
fn worker_count_does_not_change_the_restored_image() {
    let image = synthetic_image(1500, 42);
    let one = pack_image(&image, 1);
    let eight = pack_image(&image, 8);
    let from_one = unpack_image(&one, 1);
    let from_eight = unpack_image(&eight, 8);
    assert!(from_one == from_eight);
    assert!(from_one == expected_image(&image));
    // Unpacking with another number of workers changes nothing either.
    assert!(unpack_image(&one, 8) == from_one);
    assert!(unpack_image(&eight, 1) == from_one);
}

#[test]
fn image_without_metadata_packs_to_a_header() {
    let image = vec![0u8; 300 * 4096];
    let archive = pack_image(&image, 2);
    assert_eq!(archive.len(), 32);
    assert_eq!(read_header(&archive), Ok(300));
    assert!(unpack_image(&archive, 2) == image);
}

#[test]
fn empty_image_round_trips() {
    let archive = pack_image(&[], 1);
    assert_eq!(archive.len(), 32);
    assert_eq!(read_header(&archive), Ok(0));
    assert_eq!(unpack_image(&archive, 1), Vec::<u8>::new());
}

#[test]
fn archive_is_smaller_than_an_image_of_sparse_metadata() {
    let image = synthetic_image(2000, 7);
    let archive = pack_image(&image, 4);
    assert!(archive.len() < image.len());
    assert!(unpack_image(&archive, 2) == expected_image(&image));
}

#[test]
fn trailing_partial_block_is_left_out() {
    let mut image = synthetic_image(10, 3);
    let expected = expected_image(&image);
    image.extend_from_slice(&[1, 2, 3]);
    let archive = pack_image(&image, 1);
    assert_eq!(read_header(&archive), Ok(10));
    assert!(unpack_image(&archive, 1) == expected);
}
