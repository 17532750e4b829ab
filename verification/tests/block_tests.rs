use thinp_pack::block::{
    block_offset, block_type_of_tag, checksum, get_nr_blocks, metadata_block_type, read_blocks,
    BlockType, BITMAP_CSUM_XOR, BLOCK_SIZE, BTREE_CSUM_XOR, INDEX_CSUM_XOR, MAX_BLOCKS,
    SUPERBLOCK_CSUM_XOR,
};
use thinp_pack::bytes::{append_bytes, write_u64_le};

fn block_with_tag(seed: u8, tag: u32) -> Vec<u8> {
    let mut b = vec![0u8; 4096];
    for i in 4..4096 {
        b[i] = (i as u8).wrapping_mul(31).wrapping_add(seed);
    }
    let stored = checksum(&b) ^ tag;
    b[0..4].copy_from_slice(&stored.to_le_bytes());
    b
}

#[test]
fn checksum_is_inverted_crc32c_of_the_rest() {
    // The CRC-32C of "Hello world!" is 0x7B98E751.
    let mut buf = vec![9u8, 9, 9, 9];
    buf.extend_from_slice(b"Hello world!");
    assert_eq!(checksum(&buf), 0x7B98_E751 ^ 0xffff_ffff);
}

#[test]
fn checksum_skips_the_first_four_bytes() {
    let mut a = vec![1u8, 2, 3, 4];
    let mut b = vec![250u8, 251, 252, 253];
    a.extend_from_slice(b"123456789");
    b.extend_from_slice(b"123456789");
    assert_eq!(checksum(&a), checksum(&b));
    // The CRC-32C check value of "123456789" is 0xE3069283.
    assert_eq!(checksum(&a), 0xE306_9283 ^ 0xffff_ffff);
}

#[test]
fn checksum_of_four_bytes_is_that_of_nothing() {
    assert_eq!(checksum(&[5u8, 6, 7, 8]), 0xffff_ffff);
}

#[test]
fn tags_map_to_their_kinds() {
    assert_eq!(block_type_of_tag(160774), BlockType::Superblock);
    assert_eq!(block_type_of_tag(121107), BlockType::BTreeNode);
    assert_eq!(block_type_of_tag(240779), BlockType::Bitmap);
    assert_eq!(block_type_of_tag(160478), BlockType::Index);
    assert_eq!(block_type_of_tag(0), BlockType::Unknown);
    assert_eq!(block_type_of_tag(160775), BlockType::Unknown);
    assert_eq!(block_type_of_tag(u32::MAX), BlockType::Unknown);
}

#[test]
fn tag_constants_have_their_values() {
    assert_eq!(SUPERBLOCK_CSUM_XOR, 160774);
    assert_eq!(BITMAP_CSUM_XOR, 240779);
    assert_eq!(INDEX_CSUM_XOR, 160478);
    assert_eq!(BTREE_CSUM_XOR, 121107);
    assert_eq!(BLOCK_SIZE, 4096);
}

#[test]
fn classifies_each_kind() {
    assert_eq!(
        metadata_block_type(&block_with_tag(1, SUPERBLOCK_CSUM_XOR)),
        BlockType::Superblock
    );
    assert_eq!(
        metadata_block_type(&block_with_tag(2, BTREE_CSUM_XOR)),
        BlockType::BTreeNode
    );
    assert_eq!(
        metadata_block_type(&block_with_tag(3, INDEX_CSUM_XOR)),
        BlockType::Index
    );
    assert_eq!(
        metadata_block_type(&block_with_tag(4, BITMAP_CSUM_XOR)),
        BlockType::Bitmap
    );
}

#[test]
fn unstamped_block_is_unknown() {
    assert_eq!(metadata_block_type(&vec![0u8; 4096]), BlockType::Unknown);
    assert_eq!(metadata_block_type(&block_with_tag(5, 12345)), BlockType::Unknown);
}

#[test]
fn wrong_length_is_unknown() {
    let b = block_with_tag(1, SUPERBLOCK_CSUM_XOR);
    assert_eq!(metadata_block_type(&b[..4095]), BlockType::Unknown);
    let mut longer = b.clone();
    longer.push(0);
    assert_eq!(metadata_block_type(&longer), BlockType::Unknown);
    assert_eq!(metadata_block_type(&[]), BlockType::Unknown);
    assert_eq!(metadata_block_type(&[1, 2, 3]), BlockType::Unknown);
}

#[test]
fn classifying_twice_gives_the_same_kind() {
    let b = block_with_tag(7, BTREE_CSUM_XOR);
    let first = metadata_block_type(&b);
    let second = metadata_block_type(&b);
    assert_eq!(first, second);
    let copy = b.clone();
    assert_eq!(metadata_block_type(&copy), first);
}

#[test]
fn changing_a_stored_checksum_byte_makes_it_unknown() {
    let tags = [
        SUPERBLOCK_CSUM_XOR,
        BTREE_CSUM_XOR,
        INDEX_CSUM_XOR,
        BITMAP_CSUM_XOR,
    ];
    for tag in tags {
        let b = block_with_tag(11, tag);
        for i in 0..4 {
            for delta in 1..=255u8 {
                let mut c = b.clone();
                c[i] ^= delta;
                assert_eq!(metadata_block_type(&c), BlockType::Unknown);
            }
        }
    }
}

#[test]
fn changing_a_payload_byte_makes_it_unknown() {
    let b = block_with_tag(13, INDEX_CSUM_XOR);
    for i in [4usize, 5, 100, 2048, 4095] {
        let mut c = b.clone();
        c[i] ^= 0x40;
        assert_eq!(metadata_block_type(&c), BlockType::Unknown);
    }
}

#[test]
fn nr_blocks_is_length_over_block_size() {
    assert_eq!(get_nr_blocks(0), 0);
    assert_eq!(get_nr_blocks(4095), 0);
    assert_eq!(get_nr_blocks(4096), 1);
    assert_eq!(get_nr_blocks(4096 * 10 + 17), 10);
    assert_eq!(get_nr_blocks(u64::MAX), MAX_BLOCKS);
}

#[test]
fn block_offset_is_index_times_block_size() {
    assert_eq!(block_offset(0), Some(0));
    assert_eq!(block_offset(3), Some(12288));
    assert_eq!(block_offset(MAX_BLOCKS), Some(MAX_BLOCKS * 4096));
    assert_eq!(block_offset(MAX_BLOCKS + 1), None);
    assert_eq!(block_offset(u64::MAX), None);
}

#[test]
fn read_blocks_gives_offset_and_length() {
    assert_eq!(read_blocks(0, 0), Some((0, 0)));
    assert_eq!(read_blocks(2, 3), Some((8192, 12288)));
    assert_eq!(read_blocks(128, 128), Some((128 * 4096, 128 * 4096)));
    assert_eq!(read_blocks(MAX_BLOCKS, 1), None);
    assert_eq!(read_blocks(MAX_BLOCKS + 1, 0), None);
    assert_eq!(read_blocks(1, u64::MAX), None);
}

#[test]
fn u64_is_written_least_significant_byte_first() {
    let mut w = vec![0xaau8];
    write_u64_le(&mut w, 0x0102_0304_0506_0708);
    assert_eq!(w, vec![0xaa, 8, 7, 6, 5, 4, 3, 2, 1]);
    let mut z = Vec::new();
    write_u64_le(&mut z, 0);
    assert_eq!(z, vec![0u8; 8]);
    let mut m = Vec::new();
    write_u64_le(&mut m, u64::MAX);
    assert_eq!(m, vec![0xffu8; 8]);
}

#[test]
fn append_bytes_appends() {
    let mut w = vec![1u8, 2];
    append_bytes(&mut w, &[3, 4, 5]);
    assert_eq!(w, vec![1, 2, 3, 4, 5]);
    append_bytes(&mut w, &[]);
    assert_eq!(w, vec![1, 2, 3, 4, 5]);
}
