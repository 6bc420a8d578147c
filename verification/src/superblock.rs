//! SuperBlock module for OIFS
//!
//! The SuperBlock contains critical metadata about the file system layout,
//! including the locations of bitmaps, inode tables, and data blocks.
//!
//! # Record layout
//! Stored little-endian at the start of block 0:
//! `magic | block_size: u32 | block_count | inode_bitmap_block |
//! data_bitmap_block | inode_table_block | inode_count | data_block_start |
//! root_inode: u64 | encrypted: u8 (0 or 1) | encryption_salt: 16 bytes |
//! encryption_version: u32`.
use crate::encoding::{
    le32, le64, lemma_le_lengths, lemma_u32_at_placed, lemma_u64_at_placed, push_all, push_u32,
    push_u64, read_u32, read_u64, u32_at, u64_at,
};
use crate::inode::bool_byte;
use vstd::array::spec_array_fill_for_copy_type;
use vstd::prelude::*;

verus! {

/// Bytes that a superblock record occupies.
pub const SUPERBLOCK_RECORD_LEN: usize = 85;

/// Magic number identifying the OIFS file system ("OIFS" in ASCII)
pub const OIFS_MAGIC: u32 = 0x4F494653;

/// SuperBlock structure containing file system metadata
///
/// # Layout
/// - Block 0: SuperBlock (this structure)
/// - Block 1: Inode Bitmap (tracks allocated inodes)
/// - Block 2: Data Bitmap (tracks allocated data blocks)
/// - Block 3+: Inode Table (stores inode metadata)
/// - Remaining: Data Blocks (actual file/directory content)
#[derive(Debug, Clone, Copy)]
pub struct SuperBlock {
    /// Magic number for file system identification (0x4F494653 = "OIFS")
    pub magic: u32,
    /// Size of each block in bytes (typically 4096)
    pub block_size: u32,
    /// Total number of blocks in the file system
    pub block_count: u64,
    /// Block ID where the inode bitmap is stored
    pub inode_bitmap_block: u64,
    /// Block ID where the data block bitmap is stored
    pub data_bitmap_block: u64,
    /// Block ID where the inode table starts
    pub inode_table_block: u64,
    /// Maximum number of inodes supported
    pub inode_count: u64,
    /// Block ID where data blocks begin
    pub data_block_start: u64,
    /// Inode ID of the root directory (typically 0)
    pub root_inode: u64,
    /// Whether file contents are encrypted
    pub encrypted: bool,
    /// Salt from which the encryption key is derived
    pub encryption_salt: [u8; 16],
    /// Version of the encryption scheme (0 when not encrypted)
    pub encryption_version: u32,
}

/// The record that stores superblock `s`.
pub open spec fn superblock_record(s: SuperBlock) -> Seq<u8> {
    le32(s.magic) + le32(s.block_size) + le64(s.block_count) + le64(s.inode_bitmap_block) + le64(
        s.data_bitmap_block,
    ) + le64(s.inode_table_block) + le64(s.inode_count) + le64(s.data_block_start) + le64(
        s.root_inode,
    ) + seq![bool_byte(s.encrypted)] + s.encryption_salt@ + le32(s.encryption_version)
}

/// Whether the bytes `b` begin with a record of superblock `s`.
pub open spec fn sb_record_holds(b: Seq<u8>, s: SuperBlock) -> bool {
    &&& b.len() >= SUPERBLOCK_RECORD_LEN
    &&& s.magic == u32_at(b, 0)
    &&& s.block_size == u32_at(b, 4)
    &&& s.block_count == u64_at(b, 8)
    &&& s.inode_bitmap_block == u64_at(b, 16)
    &&& s.data_bitmap_block == u64_at(b, 24)
    &&& s.inode_table_block == u64_at(b, 32)
    &&& s.inode_count == u64_at(b, 40)
    &&& s.data_block_start == u64_at(b, 48)
    &&& s.root_inode == u64_at(b, 56)
    &&& b[64] == bool_byte(s.encrypted)
    &&& forall|k: int| 0 <= k < 16 ==> #[trigger] s.encryption_salt@[k] == b[65 + k]
    &&& s.encryption_version == u32_at(b, 81)
}

/// The superblock whose record the bytes begin with; none when they are too
/// short or the flag byte is neither 0 nor 1.
pub open spec fn superblock_from_record(b: Seq<u8>) -> Option<SuperBlock> {
    if exists|s: SuperBlock| sb_record_holds(b, s) {
        Some(choose|s: SuperBlock| sb_record_holds(b, s))
    } else {
        None
    }
}

/// A record names a single superblock.
pub proof fn lemma_sb_record_unique(b: Seq<u8>, s: SuperBlock, t: SuperBlock)
    requires
        sb_record_holds(b, s),
        sb_record_holds(b, t),
    ensures
        s == t,
{
    assert(s.encryption_salt =~= t.encryption_salt) by {
        assert forall|k: int| 0 <= k < 16 implies s.encryption_salt[k] == t.encryption_salt[k] by {
            assert(s.encryption_salt@[k] == b[65 + k]);
            assert(t.encryption_salt@[k] == b[65 + k]);
        }
    }
}

/// The record of `s` holds `s`, whatever follows it; reading it gives `s` back.
pub proof fn lemma_superblock_round_trip(s: SuperBlock, rest: Seq<u8>)
    ensures
        superblock_record(s).len() == SUPERBLOCK_RECORD_LEN,
        sb_record_holds(superblock_record(s) + rest, s),
        superblock_from_record(superblock_record(s) + rest) == Some(s),
{
    lemma_le_lengths();
    let r = superblock_record(s);
    let b = r + rest;
    assert(r.len() == SUPERBLOCK_RECORD_LEN);
    assert(b.subrange(0, 4) =~= le32(s.magic));
    lemma_u32_at_placed(b, 0, s.magic);
    assert(b.subrange(4, 8) =~= le32(s.block_size));
    lemma_u32_at_placed(b, 4, s.block_size);
    assert(b.subrange(8, 16) =~= le64(s.block_count));
    lemma_u64_at_placed(b, 8, s.block_count);
    assert(b.subrange(16, 24) =~= le64(s.inode_bitmap_block));
    lemma_u64_at_placed(b, 16, s.inode_bitmap_block);
    assert(b.subrange(24, 32) =~= le64(s.data_bitmap_block));
    lemma_u64_at_placed(b, 24, s.data_bitmap_block);
    assert(b.subrange(32, 40) =~= le64(s.inode_table_block));
    lemma_u64_at_placed(b, 32, s.inode_table_block);
    assert(b.subrange(40, 48) =~= le64(s.inode_count));
    lemma_u64_at_placed(b, 40, s.inode_count);
    assert(b.subrange(48, 56) =~= le64(s.data_block_start));
    lemma_u64_at_placed(b, 48, s.data_block_start);
    assert(b.subrange(56, 64) =~= le64(s.root_inode));
    lemma_u64_at_placed(b, 56, s.root_inode);
    assert(b[64] == bool_byte(s.encrypted));
    assert forall|k: int| 0 <= k < 16 implies #[trigger] s.encryption_salt@[k] == b[65 + k] by {}
    assert(b.subrange(81, 85) =~= le32(s.encryption_version));
    lemma_u32_at_placed(b, 81, s.encryption_version);
    assert(sb_record_holds(b, s));
    let c = choose|t: SuperBlock| sb_record_holds(b, t);
    lemma_sb_record_unique(b, s, c);
}

/// The superblock of a new file system of `total_blocks` blocks.
pub open spec fn fresh_superblock(total_blocks: u64) -> SuperBlock {
    SuperBlock {
        magic: OIFS_MAGIC,
        block_size: 4096,
        block_count: total_blocks,
        inode_bitmap_block: 1,
        data_bitmap_block: 2,
        inode_table_block: 3,
        inode_count: 32768,
        data_block_start: 1027,
        root_inode: 0,
        encrypted: false,
        encryption_salt: spec_array_fill_for_copy_type::<u8, 16>(0u8),
        encryption_version: 0,
    }
}

impl SuperBlock {
    /// Creates a new SuperBlock for a file system with the given total number of blocks
    ///
    /// # Layout Calculation
    /// - Block 0: SuperBlock
    /// - Block 1: Inode Bitmap (1 block = 32,768 inodes)
    /// - Block 2: Data Bitmap (1 block = 32,768 blocks, about 128MB)
    /// - Block 3+: Inode Table (1024 blocks, counted at 128 bytes per inode)
    /// - Remaining: Data Blocks
    pub fn new(total_blocks: u64) -> (r: Self)
        ensures
            r.magic == OIFS_MAGIC,
            r.block_size == 4096,
            r.block_count == total_blocks,
            r.inode_bitmap_block == 1,
            r.data_bitmap_block == 2,
            r.inode_table_block == 3,
            r.inode_count == 32768,
            r.data_block_start == 1027,
            r.root_inode == 0,
            !r.encrypted,
            forall|k: int| 0 <= k < 16 ==> r.encryption_salt@[k] == 0,
            r.encryption_version == 0,
            r == fresh_superblock(total_blocks),
    {
        let inode_bitmap_block: u64 = 1;
        let data_bitmap_block: u64 = 2;
        let inode_table_block: u64 = 3;
        // 1 block of bitmap = 4096 bytes * 8 bits/byte = 32,768 inodes
        let inode_count: u64 = 4096 * 8;
        // The table is counted at 128 bytes per inode.
        let inode_table_blocks: u64 = (inode_count * 128) / 4096;
        let data_block_start = inode_table_block + inode_table_blocks;
        let sb = Self {
            magic: OIFS_MAGIC,
            block_size: 4096,
            block_count: total_blocks,
            inode_bitmap_block,
            data_bitmap_block,
            inode_table_block,
            inode_count,
            data_block_start,
            root_inode: 0,
            encrypted: false,
            encryption_salt: [0u8; 16],
            encryption_version: 0,
        };
        assert(sb.encryption_salt =~= fresh_superblock(total_blocks).encryption_salt);
        sb
    }

    /// The record that stores this superblock.
    pub fn to_bytes(&self) -> (r: Vec<u8>)
        ensures
            r@ == superblock_record(*self),
            r@.len() == SUPERBLOCK_RECORD_LEN,
    {
        let mut v: Vec<u8> = Vec::new();
        push_u32(&mut v, self.magic);
        push_u32(&mut v, self.block_size);
        push_u64(&mut v, self.block_count);
        push_u64(&mut v, self.inode_bitmap_block);
        push_u64(&mut v, self.data_bitmap_block);
        push_u64(&mut v, self.inode_table_block);
        push_u64(&mut v, self.inode_count);
        push_u64(&mut v, self.data_block_start);
        push_u64(&mut v, self.root_inode);
        v.push(if self.encrypted { 1u8 } else { 0u8 });
        push_all(&mut v, self.encryption_salt.as_slice());
        push_u32(&mut v, self.encryption_version);
        proof {
            lemma_superblock_round_trip(*self, Seq::empty());
            assert(v@ =~= superblock_record(*self));
        }
        v
    }

    /// The superblock whose record `bytes` begin with, or `None`.
    pub fn from_bytes(bytes: &[u8]) -> (r: Option<SuperBlock>)
        ensures
            r == superblock_from_record(bytes@),
    {
        if bytes.len() < SUPERBLOCK_RECORD_LEN {
            return None;
        }
        let flag = bytes[64];
        if flag > 1 {
            proof {
                assert forall|s: SuperBlock| !sb_record_holds(bytes@, s) by {}
            }
            return None;
        }
        let mut salt = [0u8; 16];
        let mut k: usize = 0;
        while k < 16
            invariant
                k <= 16,
                bytes@.len() >= SUPERBLOCK_RECORD_LEN,
                forall|j: int| 0 <= j < k ==> #[trigger] salt@[j] == bytes@[65 + j],
            decreases 16 - k,
        {
            salt[k] = bytes[65 + k];
            k = k + 1;
        }
        let sb = SuperBlock {
            magic: read_u32(bytes, 0),
            block_size: read_u32(bytes, 4),
            block_count: read_u64(bytes, 8),
            inode_bitmap_block: read_u64(bytes, 16),
            data_bitmap_block: read_u64(bytes, 24),
            inode_table_block: read_u64(bytes, 32),
            inode_count: read_u64(bytes, 40),
            data_block_start: read_u64(bytes, 48),
            root_inode: read_u64(bytes, 56),
            encrypted: flag == 1,
            encryption_salt: salt,
            encryption_version: read_u32(bytes, 81),
        };
        proof {
            assert(sb_record_holds(bytes@, sb));
            let c = choose|s: SuperBlock| sb_record_holds(bytes@, s);
            lemma_sb_record_unique(bytes@, sb, c);
        }
        Some(sb)
    }
}

} // verus!
