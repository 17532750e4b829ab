//! Packing and unpacking of thin-provisioning metadata images.
//!
//! A metadata image is a sequence of 4096-byte blocks, most of them unused.
//! Packing keeps the blocks whose checksum marks them as live metadata and
//! stores them, compressed, in an archive; unpacking rebuilds the image from
//! the archive, with zeros wherever no block was stored.
//!
//! The library holds what both directions decide and compute:
//!
//! * [`block`]: the block classifier, and where a block lies in an image;
//! * [`container`]: the header of an archive and the framing of its runs;
//! * [`planner`]: the chunks of an image, shuffled and dealt out to workers;
//! * [`pack`]: a worker that turns the blocks of its chunks into runs;
//! * [`unpack`]: a worker that turns runs into writes to the image, and the
//!   dispatcher that deals the runs out;
//! * [`coordinator`]: what is reported when all workers are done;
//! * [`image`]: packing and unpacking of an image that is held in memory;
//! * [`codec`]: what the engines need from the storage engine's encoders;
//! * [`zlib`] and [`bytes`]: compression, and little-endian integers.
//!
//! Files and threads are the caller's: a worker is handed the bytes that
//! were read for it, and hands back the bytes, or the writes, to perform.
//! For an image that fits in memory, [`image::pack`] and [`image::unpack`]
//! do the whole of it.

pub mod block;
pub mod bytes;
pub mod codec;
pub mod container;
pub mod coordinator;
pub mod image;
pub mod pack;
pub mod planner;
pub mod unpack;
pub mod zlib;
