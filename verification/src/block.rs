//! Blocks of a metadata image and the classifier that tells, from the bytes
//! of a block alone, which kind of metadata it holds.
//!
//! A live metadata block starts with a checksum of the rest of the block,
//! into which the writer folded a constant that depends on the kind of the
//! block. Taking the checksum again and combining it with the stored one
//! brings the constant back.

use crate::bytes::{read_u32_le, spec_u32_from_le};
use vstd::prelude::*;
use vstd::slice::slice_subrange;

verus! {

/// Bytes in a block.
pub const BLOCK_SIZE: u64 = 4096;

/// Bytes in a block, as a length.
pub const BLOCK_BYTES: usize = 4096;

/// The largest number of blocks whose bytes a 64-bit offset can address.
pub const MAX_BLOCKS: u64 = 0xf_ffff_ffff_ffff;

/// The constant folded into the checksum of a superblock.
pub const SUPERBLOCK_CSUM_XOR: u32 = 160774;

/// The constant folded into the checksum of a space-map bitmap.
pub const BITMAP_CSUM_XOR: u32 = 240779;

/// The constant folded into the checksum of a space-map index.
pub const INDEX_CSUM_XOR: u32 = 160478;

/// The constant folded into the checksum of a B-tree node.
pub const BTREE_CSUM_XOR: u32 = 121107;

/// What a block holds.
#[derive(Clone, Copy, Debug, PartialEq, Eq, Structural)]
pub enum BlockType {
    Superblock,
    BTreeNode,
    Index,
    Bitmap,
    /// Anything else; such a block is never stored in an archive.
    Unknown,
}

/// The CRC-32C (Castagnoli) of `data`, as `crc32c::crc32c` computes it.
pub uninterp spec fn spec_crc32c(data: Seq<u8>) -> u32;

/// `crc32c::crc32c`: the CRC-32C of `data`, which depends on the bytes alone
/// (the hardware and the software path of that crate compute the same
/// function).
#[verifier::external_body]
fn crc32c_of(data: &[u8]) -> (r: u32)
    ensures
        r == spec_crc32c(data@),
{
    crc32c::crc32c(data)
}

/// The checksum of a block: the CRC-32C of everything after the first four
/// bytes, with all bits inverted.
pub open spec fn spec_checksum(buf: Seq<u8>) -> u32 {
    spec_crc32c(buf.subrange(4, buf.len() as int)) ^ 0xffff_ffffu32
}

/// The kind that a tag stands for.
pub open spec fn spec_tag_type(tag: u32) -> BlockType {
    if tag == SUPERBLOCK_CSUM_XOR {
        BlockType::Superblock
    } else if tag == BTREE_CSUM_XOR {
        BlockType::BTreeNode
    } else if tag == BITMAP_CSUM_XOR {
        BlockType::Bitmap
    } else if tag == INDEX_CSUM_XOR {
        BlockType::Index
    } else {
        BlockType::Unknown
    }
}

/// The tag of a kind of metadata.
pub open spec fn spec_type_tag(kind: BlockType) -> u32
    recommends
        kind != BlockType::Unknown,
{
    match kind {
        BlockType::Superblock => SUPERBLOCK_CSUM_XOR,
        BlockType::BTreeNode => BTREE_CSUM_XOR,
        BlockType::Bitmap => BITMAP_CSUM_XOR,
        BlockType::Index => INDEX_CSUM_XOR,
        BlockType::Unknown => 0,
    }
}

/// The kind of a block: `Unknown` unless the buffer is exactly one block long
/// and its checksum, combined with the stored one, gives a known tag.
pub open spec fn spec_block_type(buf: Seq<u8>) -> BlockType {
    if buf.len() != BLOCK_SIZE {
        BlockType::Unknown
    } else {
        spec_tag_type(spec_checksum(buf) ^ spec_u32_from_le(buf))
    }
}

/// The number of whole blocks in an image of `len` bytes.
pub fn get_nr_blocks(len: u64) -> (n: u64)
    ensures
        n == len / BLOCK_SIZE,
        n <= MAX_BLOCKS,
{
    len / BLOCK_SIZE
}

/// Where block `index` starts in the image, in bytes: `None` where that is
/// beyond what a 64-bit offset can say.
pub fn block_offset(index: u64) -> (r: Option<u64>)
    ensures
        r == (if index <= MAX_BLOCKS {
            Some((index * BLOCK_SIZE) as u64)
        } else {
            None
        }),
        index <= MAX_BLOCKS ==> index * BLOCK_SIZE <= u64::MAX,
{
    if index <= MAX_BLOCKS {
        Some(index * BLOCK_SIZE)
    } else {
        None
    }
}

/// Where to read `count` blocks from block `b` on: the offset of the first
/// byte and the number of bytes. `None` where the blocks do not all lie
/// within reach of a 64-bit offset, or are more than a buffer can hold.
pub fn read_blocks(b: u64, count: u64) -> (r: Option<(u64, usize)>)
    ensures
        r == (if b + count <= MAX_BLOCKS && count * BLOCK_SIZE <= usize::MAX {
            Some(((b * BLOCK_SIZE) as u64, (count * BLOCK_SIZE) as usize))
        } else {
            None
        }),
{
    if b > MAX_BLOCKS || count > MAX_BLOCKS - b {
        return None;
    }
    let bytes = count * BLOCK_SIZE;
    if bytes > usize::MAX as u64 {
        return None;
    }
    Some((b * BLOCK_SIZE, bytes as usize))
}

/// Computes the checksum of everything in `buf` after its first four bytes.
pub fn checksum(buf: &[u8]) -> (r: u32)
    requires
        buf@.len() >= 4,
    ensures
        r == spec_checksum(buf@),
{
    crc32c_of(slice_subrange(buf, 4, buf.len())) ^ 0xffff_ffff
}

/// Looks a tag up among the four known ones.
pub fn block_type_of_tag(tag: u32) -> (r: BlockType)
    ensures
        r == spec_tag_type(tag),
{
    if tag == SUPERBLOCK_CSUM_XOR {
        BlockType::Superblock
    } else if tag == BTREE_CSUM_XOR {
        BlockType::BTreeNode
    } else if tag == BITMAP_CSUM_XOR {
        BlockType::Bitmap
    } else if tag == INDEX_CSUM_XOR {
        BlockType::Index
    } else {
        BlockType::Unknown
    }
}

/// Classifies a block by its checksum. The result depends on the bytes alone.
pub fn metadata_block_type(buf: &[u8]) -> (r: BlockType)
    ensures
        r == spec_block_type(buf@),
{
    if buf.len() != BLOCK_BYTES {
        return BlockType::Unknown;
    }
    // The checksum is always stored in the first four bytes of the block.
    let sum_on_disk = read_u32_le(buf);
    let csum = checksum(buf);
    block_type_of_tag(csum ^ sum_on_disk)
}

/// Buffers that hold the same bytes are classified alike.
pub proof fn lemma_classification_stable(a: Seq<u8>, b: Seq<u8>)
    requires
        a =~= b,
    ensures
        spec_block_type(a) == spec_block_type(b),
{
}

/// No two known tags differ in one byte only, so a tag that is known stops
/// being known when one of its bytes changes.
proof fn lemma_tag_byte_change(tag: u32, d: u32, shift: u32)
    requires
        0 < d < 256,
        shift == 0 || shift == 8 || shift == 16 || shift == 24,
        spec_tag_type(tag) != BlockType::Unknown,
    ensures
        spec_tag_type(tag ^ (d << shift)) == BlockType::Unknown,
{
    assert(0 < d < 256 && (shift == 0 || shift == 8 || shift == 16 || shift == 24) && (tag
        == 160774u32 || tag == 121107u32 || tag == 240779u32 || tag == 160478u32) ==> {
        let t = tag ^ (d << shift);
        t != 160774u32 && t != 121107u32 && t != 240779u32 && t != 160478u32
    }) by (bit_vector);
}

/// A classified block becomes `Unknown` when any one byte of its stored
/// checksum is changed.
pub proof fn lemma_stored_checksum_byte_change(buf: Seq<u8>, i: int, v: u8)
    requires
        0 <= i < 4,
        v != buf[i],
        spec_block_type(buf) != BlockType::Unknown,
    ensures
        spec_block_type(buf.update(i, v)) == BlockType::Unknown,
{
    let changed = buf.update(i, v);
    assert(changed.subrange(4, changed.len() as int) =~= buf.subrange(4, buf.len() as int));
    let c = spec_checksum(buf);
    let old_sum = spec_u32_from_le(buf);
    let new_sum = spec_u32_from_le(changed);
    let (b0, b1, b2, b3) = (buf[0], buf[1], buf[2], buf[3]);
    let d: u32 = (v ^ buf[i]) as u32;
    let shift: u32 = (8 * i) as u32;
    assert(0 < d < 256) by {
        let w = buf[i];
        assert(v != w ==> 0 < ((v ^ w) as u32) < 256) by (bit_vector);
    }
    assert(c ^ new_sum == (c ^ old_sum) ^ (d << shift)) by {
        if i == 0 {
            assert(c ^ ((v as u32) | (b1 as u32) << 8 | (b2 as u32) << 16 | (b3 as u32) << 24) == (c
                ^ ((b0 as u32) | (b1 as u32) << 8 | (b2 as u32) << 16 | (b3 as u32) << 24)) ^ (((v
                ^ b0) as u32) << 0u32)) by (bit_vector);
        } else if i == 1 {
            assert(c ^ ((b0 as u32) | (v as u32) << 8 | (b2 as u32) << 16 | (b3 as u32) << 24) == (c
                ^ ((b0 as u32) | (b1 as u32) << 8 | (b2 as u32) << 16 | (b3 as u32) << 24)) ^ (((v
                ^ b1) as u32) << 8u32)) by (bit_vector);
        } else if i == 2 {
            assert(c ^ ((b0 as u32) | (b1 as u32) << 8 | (v as u32) << 16 | (b3 as u32) << 24) == (c
                ^ ((b0 as u32) | (b1 as u32) << 8 | (b2 as u32) << 16 | (b3 as u32) << 24)) ^ (((v
                ^ b2) as u32) << 16u32)) by (bit_vector);
        } else {
            assert(c ^ ((b0 as u32) | (b1 as u32) << 8 | (b2 as u32) << 16 | (v as u32) << 24) == (c
                ^ ((b0 as u32) | (b1 as u32) << 8 | (b2 as u32) << 16 | (b3 as u32) << 24)) ^ (((v
                ^ b3) as u32) << 24u32)) by (bit_vector);
        }
    }
    lemma_tag_byte_change(c ^ old_sum, d, shift);
}

/// A classified block whose bytes after the stored checksum are changed
/// stays classified only by a collision of checksums: the checksum of the
/// changed block must differ from the one before by just the difference of
/// the tags of the two kinds, which for the same kind means that the two
/// checksums are equal.
pub proof fn lemma_payload_change(buf: Seq<u8>, changed: Seq<u8>)
    requires
        buf.subrange(0, 4) == changed.subrange(0, 4),
        spec_block_type(buf) != BlockType::Unknown,
        spec_block_type(changed) != BlockType::Unknown,
    ensures
        spec_checksum(buf) ^ spec_checksum(changed) == spec_type_tag(spec_block_type(buf))
            ^ spec_type_tag(spec_block_type(changed)),
        spec_block_type(buf) == spec_block_type(changed) ==> spec_checksum(buf) == spec_checksum(
            changed,
        ),
{
    let head = buf.subrange(0, 4);
    let other = changed.subrange(0, 4);
    assert(buf[0] == head[0] && buf[1] == head[1] && buf[2] == head[2] && buf[3] == head[3]);
    assert(changed[0] == other[0] && changed[1] == other[1] && changed[2] == other[2]
        && changed[3] == other[3]);
    let stored = spec_u32_from_le(buf);
    assert(stored == spec_u32_from_le(changed));
    let c = spec_checksum(buf);
    let d = spec_checksum(changed);
    let t = spec_type_tag(spec_block_type(buf));
    let u = spec_type_tag(spec_block_type(changed));
    assert(c ^ stored == t);
    assert(d ^ stored == u);
    assert(c ^ stored == t && d ^ stored == u ==> c ^ d == t ^ u) by (bit_vector);
    assert(c ^ d == 0u32 ==> c == d) by (bit_vector);
    assert(t ^ t == 0u32) by (bit_vector);
}

} // verus!
