//! OIFS: a small inode file system kept in a single byte image.
//!
//! The library holds the image in memory and proves its block bitmaps,
//! directory records, inode records and file operations against
//! specifications over the image bytes.
pub mod allocator;
pub mod bitmap;
pub mod commands;
pub mod compression;
pub mod defrag_props;
pub mod directory;
pub mod disk;
pub mod encoding;
pub mod encryption;
pub mod fs_props;
pub mod inode;
pub mod listing;
pub mod superblock;
pub mod write_props;

use vstd::prelude::*;

verus! {

/// Size of one block of the image, in bytes.
pub const BLOCK_SIZE: usize = 4096;

} // verus!
