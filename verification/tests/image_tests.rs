use thinp_pack::block::{
    checksum, metadata_block_type, BlockType, BITMAP_CSUM_XOR, BTREE_CSUM_XOR, INDEX_CSUM_XOR,
    SUPERBLOCK_CSUM_XOR,
};
use thinp_pack::codec::{BlockCodec, DecodeError, EncodeError, Reconstructed};
use flate2::read::ZlibDecoder;
use std::io::Read;
use thinp_pack::container::{read_header, split_runs, write_header, FormatError};
use thinp_pack::image::{apply_write, pack, unpack, ImageError};
use thinp_pack::pack::PackError;
use thinp_pack::unpack::{BlockWrite, UnpackError};

/// Stores a block whole.
struct Plain;

impl BlockCodec for Plain {
    fn encode(&self, _kind: BlockType, block: &[u8]) -> Result<Vec<u8>, EncodeError> {
        Ok(block.to_vec())
    }

    fn reconstruct(&self, source: &[u8], block_size: usize) -> Result<Reconstructed, DecodeError> {
        match source.get(..block_size) {
            Some(block) => Ok(Reconstructed {
                block: block.to_vec(),
                consumed: block_size,
            }),
            None => Err(DecodeError::ParseError),
        }
    }
}

/// Refuses bitmaps.
struct NoBitmaps;

impl BlockCodec for NoBitmaps {
    fn encode(&self, kind: BlockType, block: &[u8]) -> Result<Vec<u8>, EncodeError> {
        if kind == BlockType::Bitmap {
            Err(EncodeError::IOError)
        } else {
            Ok(block.to_vec())
        }
    }

    fn reconstruct(&self, _source: &[u8], _block_size: usize) -> Result<Reconstructed, DecodeError> {
        Err(DecodeError::IOError)
    }
}

fn image_step(state: &mut u64) -> u64 {
    *state ^= *state << 13;
    *state ^= *state >> 7;
    *state ^= *state << 17;
    *state
}

fn image_of(nr_blocks: usize, seed: u64, tags: &[u32]) -> Vec<u8> {
    let mut state = seed | 1;
    let mut image = vec![0u8; nr_blocks * 4096];
    for b in 0..nr_blocks {
        let block = &mut image[b * 4096..(b + 1) * 4096];
        for byte in block.iter_mut() {
            *byte = image_step(&mut state) as u8;
        }
        if image_step(&mut state) % 2 == 0 {
            let tag = tags[(image_step(&mut state) % tags.len() as u64) as usize];
            let stored = checksum(block) ^ tag;
            block[0..4].copy_from_slice(&stored.to_le_bytes());
        }
    }
    image
}

fn live_image(image: &[u8]) -> Vec<u8> {
    let mut out = vec![0u8; image.len() / 4096 * 4096];
    for b in 0..image.len() / 4096 {
        let block = &image[b * 4096..(b + 1) * 4096];
        if metadata_block_type(block) != BlockType::Unknown {
            out[b * 4096..(b + 1) * 4096].copy_from_slice(block);
        }
    }
    out
}

const ALL_TAGS: [u32; 4] = [
    SUPERBLOCK_CSUM_XOR,
    BTREE_CSUM_XOR,
    INDEX_CSUM_XOR,
    BITMAP_CSUM_XOR,
];

#[test]
fn apply_write_puts_bytes_in_their_place() {
    let mut image = vec![0u8; 10];
    let w = BlockWrite {
        offset: 3,
        data: vec![1, 2, 3],
    };
    assert!(apply_write(&mut image, &w));
    assert_eq!(image, vec![0, 0, 0, 1, 2, 3, 0, 0, 0, 0]);
    let at_end = BlockWrite {
        offset: 8,
        data: vec![9, 9],
    };
    assert!(apply_write(&mut image, &at_end));
    assert_eq!(image, vec![0, 0, 0, 1, 2, 3, 0, 0, 9, 9]);
    let nothing = BlockWrite {
        offset: 10,
        data: vec![],
    };
    assert!(apply_write(&mut image, &nothing));
    assert_eq!(image, vec![0, 0, 0, 1, 2, 3, 0, 0, 9, 9]);
}

#[test]
fn apply_write_refuses_what_does_not_fit() {
    let mut image = vec![7u8; 4];
    let too_long = BlockWrite {
        offset: 2,
        data: vec![1, 2, 3],
    };
    assert!(!apply_write(&mut image, &too_long));
    assert_eq!(image, vec![7u8; 4]);
    let beyond = BlockWrite {
        offset: 5,
        data: vec![],
    };
    assert!(!apply_write(&mut image, &beyond));
    let far = BlockWrite {
        offset: u64::MAX,
        data: vec![1],
    };
    assert!(!apply_write(&mut image, &far));
    assert_eq!(image, vec![7u8; 4]);
}

#[test]
fn pack_then_unpack_restores_the_live_blocks() {
    let image = image_of(600, 11, &ALL_TAGS);
    let live = live_image(&image);
    assert_ne!(live, image);
    assert_ne!(live, vec![0u8; image.len()]);
    let (archive, status) = pack(&Plain, &image, 3);
    assert_eq!(status, Ok(()));
    assert_eq!(read_header(&archive), Ok(600));
    let (restored, outcome) = unpack(&Plain, &archive, 4);
    assert_eq!(outcome, Ok(()));
    assert!(restored == live);
}

#[test]
fn worker_counts_give_the_same_image() {
    let image = image_of(3000, 5, &ALL_TAGS);
    let (one, status_one) = pack(&Plain, &image, 1);
    let (eight, status_eight) = pack(&Plain, &image, 8);
    assert_eq!(status_one, Ok(()));
    assert_eq!(status_eight, Ok(()));
    assert_eq!(&one[..32], &eight[..32]);
    let (from_one, outcome_one) = unpack(&Plain, &one, 1);
    let (from_eight, outcome_eight) = unpack(&Plain, &eight, 8);
    assert_eq!(outcome_one, Ok(()));
    assert_eq!(outcome_eight, Ok(()));
    assert!(from_one == from_eight);
    assert!(from_one == live_image(&image));
    assert!(unpack(&Plain, &one, 8) == (from_one, Ok(())));
}

#[test]
fn image_without_metadata_packs_to_its_header() {
    let image = vec![0x5au8; 40 * 4096 + 100];
    let (archive, status) = pack(&Plain, &image, 2);
    assert_eq!(status, Ok(()));
    let mut header = Vec::new();
    write_header(&mut header, 40);
    assert_eq!(archive, header);
    assert_eq!(unpack(&Plain, &archive, 2), (vec![0u8; 40 * 4096], Ok(())));
}

#[test]
fn empty_image_packs_and_unpacks() {
    let (archive, status) = pack(&Plain, &[], 1);
    assert_eq!(status, Ok(()));
    assert_eq!(archive.len(), 32);
    assert_eq!(unpack(&Plain, &archive, 1), (vec![], Ok(())));
}

#[test]
fn pack_reports_the_encoder_error() {
    let image = image_of(50, 3, &[BITMAP_CSUM_XOR]);
    let (archive, status) = pack(&NoBitmaps, &image, 1);
    assert_eq!(status, Err(PackError::Encode(EncodeError::IOError)));
    assert_eq!(read_header(&archive), Ok(50));
    let fine = image_of(50, 3, &[SUPERBLOCK_CSUM_XOR]);
    assert_eq!(pack(&NoBitmaps, &fine, 1).1, Ok(()));
}

#[test]
fn unpack_reports_a_bad_archive() {
    assert_eq!(
        unpack(&Plain, &[], 1),
        (vec![], Err(ImageError::Format(FormatError::TruncatedHeader)))
    );
    let image = image_of(20, 9, &ALL_TAGS);
    let (archive, _) = pack(&Plain, &image, 1);
    let mut bad_magic = archive.clone();
    bad_magic[0] ^= 1;
    assert_eq!(
        unpack(&Plain, &bad_magic, 1),
        (vec![], Err(ImageError::Format(FormatError::BadMagic)))
    );
    assert_eq!(
        unpack(&Plain, &archive[..archive.len() - 1], 1),
        (vec![], Err(ImageError::Format(FormatError::TruncatedRun)))
    );
    let mut corrupt = archive.clone();
    let last = corrupt.len() - 1;
    corrupt[40] ^= 0xff;
    corrupt[last] ^= 0xff;
    assert_eq!(
        unpack(&Plain, &corrupt, 1),
        (
            vec![0u8; 20 * 4096],
            Err(ImageError::Unpack(UnpackError::CorruptRun))
        )
    );
}

#[test]
fn unpack_reports_what_the_decoder_refuses() {
    let image = image_of(20, 9, &[SUPERBLOCK_CSUM_XOR]);
    let (archive, status) = pack(&NoBitmaps, &image, 1);
    assert_eq!(status, Ok(()));
    assert_eq!(
        unpack(&NoBitmaps, &archive, 2),
        (
            vec![0u8; 20 * 4096],
            Err(ImageError::Unpack(UnpackError::Reconstruct(
                DecodeError::IOError
            )))
        )
    );
}

#[test]
fn unpack_refuses_a_block_beyond_the_image() {
    let image = image_of(20, 9, &ALL_TAGS);
    let (archive, _) = pack(&Plain, &image, 1);
    // The same runs under a header that announces fewer blocks.
    let mut short = Vec::new();
    write_header(&mut short, 5);
    short.extend_from_slice(&archive[32..]);
    let (partly, outcome) = unpack(&Plain, &short, 1);
    assert_eq!(
        outcome,
        Err(ImageError::Unpack(UnpackError::BlockOutOfRange))
    );
    // What lies within the image and was written before is kept.
    assert_eq!(partly.len(), 5 * 4096);
    let live = live_image(&image);
    for b in 0..5 {
        let got = &partly[b * 4096..(b + 1) * 4096];
        assert!(got == &live[b * 4096..(b + 1) * 4096] || got == &[0u8; 4096][..]);
    }
    // Under a header that announces more, the image is longer.
    let mut long = Vec::new();
    write_header(&mut long, 25);
    long.extend_from_slice(&archive[32..]);
    let mut expected = live_image(&image);
    expected.resize(25 * 4096, 0);
    assert!(unpack(&Plain, &long, 3) == (expected, Ok(())));
}

#[test]
fn unpack_keeps_what_was_written_before_it_stopped() {
    // Forty blocks of metadata in one run, then a run that is cut short.
    let mut image = vec![0u8; 40 * 4096];
    for b in 0..40 {
        let block = &mut image[b * 4096..(b + 1) * 4096];
        block[100] = b as u8 + 1;
        let stored = checksum(block) ^ SUPERBLOCK_CSUM_XOR;
        block[0..4].copy_from_slice(&stored.to_le_bytes());
    }
    let (mut archive, status) = pack(&Plain, &image, 1);
    assert_eq!(status, Ok(()));
    archive.extend_from_slice(&[3, 0, 0, 0, 0, 0, 0, 0, 1, 2, 3]);
    let (partly, outcome) = unpack(&Plain, &archive, 1);
    assert_eq!(outcome, Err(ImageError::Unpack(UnpackError::CorruptRun)));
    assert_eq!(partly.len(), image.len());
    // The first batch of 32 blocks was written, the other blocks were not.
    let written: Vec<usize> = (0..40)
        .filter(|&b| partly[b * 4096..(b + 1) * 4096] == image[b * 4096..(b + 1) * 4096])
        .collect();
    assert_eq!(written.len(), 32);
    for b in 0..40 {
        if !written.contains(&b) {
            assert!(partly[b * 4096..(b + 1) * 4096] == [0u8; 4096][..]);
        }
    }
}

fn block_numbers(archive: &[u8]) -> Vec<u64> {
    let mut numbers = Vec::new();
    for run in split_runs(&archive[32..]).unwrap() {
        let mut stream = Vec::new();
        ZlibDecoder::new(&run[..]).read_to_end(&mut stream).unwrap();
        assert_eq!(stream.len() % (8 + 4096), 0);
        assert!(stream.len() / (8 + 4096) <= 1024);
        for record in stream.chunks(8 + 4096) {
            let mut number = [0u8; 8];
            number.copy_from_slice(&record[..8]);
            numbers.push(u64::from_le_bytes(number));
        }
    }
    numbers
}

#[test]
fn archive_holds_each_live_block_once() {
    let image = image_of(2500, 21, &ALL_TAGS);
    let live: Vec<u64> = (0..2500u64)
        .filter(|&b| {
            let at = b as usize * 4096;
            metadata_block_type(&image[at..at + 4096]) != BlockType::Unknown
        })
        .collect();
    assert!(live.len() > 1024);
    for nr_jobs in [1u64, 3, 8] {
        let (archive, status) = pack(&Plain, &image, nr_jobs);
        assert_eq!(status, Ok(()));
        let mut numbers = block_numbers(&archive);
        numbers.sort();
        assert_eq!(numbers, live);
    }
}
