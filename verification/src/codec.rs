//! What the engines need from the storage engine whose metadata they pack:
//! a way to write a block of a known kind in a shorter form, and a way to
//! get the block back from that form.
//!
//! The engines do not look into the shorter form. They store it after the
//! number of the block, and on the way back hand the bytes that follow a
//! block number to the codec, which says how many of them it used.

use crate::block::{BlockType, BLOCK_SIZE};
use vstd::prelude::*;

verus! {

/// Why a block could not be encoded.
#[derive(Clone, Copy, Debug, PartialEq, Eq, Structural)]
pub enum EncodeError {
    /// The block does not hold what its kind promises.
    ParseError,
    /// The encoder could not write.
    IOError,
}

/// Why a block could not be rebuilt.
#[derive(Clone, Copy, Debug, PartialEq, Eq, Structural)]
pub enum DecodeError {
    /// The bytes are not the short form of a block.
    ParseError,
    /// The decoder could not read.
    IOError,
}

/// A block that was rebuilt from its short form.
#[derive(Debug, PartialEq, Eq)]
pub struct Reconstructed {
    /// The block, in full.
    pub block: Vec<u8>,
    /// How many bytes of the source the short form took.
    pub consumed: usize,
}

/// The encoders and the decoder of a storage engine.
pub trait BlockCodec {
    /// Writes a block of the given kind in its short form. The engines hand
    /// over whole blocks only, and none that is `Unknown`.
    fn encode(&self, kind: BlockType, block: &[u8]) -> (res: Result<Vec<u8>, EncodeError>)
        requires
            kind != BlockType::Unknown,
            block@.len() == BLOCK_SIZE,
    ;

    /// Rebuilds the block whose short form starts `source`, as a block of
    /// `block_size` bytes.
    fn reconstruct(&self, source: &[u8], block_size: usize) -> (res: Result<
        Reconstructed,
        DecodeError,
    >);
}

} // verus!
