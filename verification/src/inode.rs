//! Inode module for OIFS file system
//!
//! Inodes store metadata about files and directories, including size,
//! timestamps, and block pointers for data storage.
//!
//! # Record layout
//! An inode is stored as a little-endian record at the start of its
//! 256-byte slot in the inode table:
//! `mode: u32 | size | compressed_size | created_at | modified_at: u64 |
//! blocks: 12 x u64 | encrypted: u8 (0 or 1) | encryption_nonce: 24 bytes`.
use crate::encoding::{
    le32, le64, lemma_le_lengths, lemma_u32_at_bytes, lemma_u32_at_placed, lemma_u64_at_bytes,
    lemma_u64_at_placed, lemma_words_le, push_all, push_u32, push_u64, read_u32, read_u64,
    u32_at, u64_at, words_le,
};
use vstd::prelude::*;

verus! {

/// Type of file system entry
#[derive(Debug, Clone, Copy, PartialEq, Eq, Structural)]
pub enum FileType {
    /// Regular file
    File,
    /// Directory (container for other files/directories)
    Directory,
}

/// Number of direct block pointers of an inode.
pub const DIRECT_BLOCKS: usize = 12;

/// Bytes that an inode record occupies.
pub const INODE_RECORD_LEN: usize = 157;

/// Bytes that each inode slot of the inode table occupies.
pub const INODE_SLOT_SIZE: u64 = 256;

/// Inode structure storing file/directory metadata
///
/// - Maximum file size: 48KB (12 direct blocks x 4KB)
/// - Files may be stored compressed: `size` is the logical size,
///   `compressed_size` the stored (compressed) size, 0 when stored raw.
/// - Encrypted files carry their nonce; the stored bytes then end with
///   a 16-byte authentication tag.
#[derive(Debug, Clone, Copy)]
pub struct Inode {
    /// Type of this inode (File or Directory)
    pub mode: FileType,
    /// Logical size in bytes (original/uncompressed size)
    pub size: u64,
    /// Size in bytes of the compressed payload, 0 if stored raw
    pub compressed_size: u64,
    /// Creation timestamp (Unix epoch seconds)
    pub created_at: u64,
    /// Last modification timestamp (Unix epoch seconds)
    pub modified_at: u64,
    /// Direct block pointers; block ID 0 marks an unallocated block
    pub blocks: [u64; 12],
    /// Whether the stored bytes are encrypted
    pub encrypted: bool,
    /// Nonce the stored bytes were encrypted with
    pub encryption_nonce: [u8; 24],
}

/// The number that stands for a file type in a record.
pub open spec fn file_type_code(t: FileType) -> u32 {
    match t {
        FileType::File => 0,
        FileType::Directory => 1,
    }
}

pub open spec fn bool_byte(b: bool) -> u8 {
    if b {
        1
    } else {
        0
    }
}

/// The record that stores inode `i`.
pub open spec fn inode_record(i: Inode) -> Seq<u8> {
    le32(file_type_code(i.mode)) + le64(i.size) + le64(i.compressed_size) + le64(i.created_at)
        + le64(i.modified_at) + words_le(i.blocks@) + seq![bool_byte(i.encrypted)]
        + i.encryption_nonce@
}

/// Whether the bytes `b` begin with a record of inode `i`.
pub open spec fn record_holds(b: Seq<u8>, i: Inode) -> bool {
    &&& b.len() >= INODE_RECORD_LEN
    &&& u32_at(b, 0) == file_type_code(i.mode)
    &&& i.size == u64_at(b, 4)
    &&& i.compressed_size == u64_at(b, 12)
    &&& i.created_at == u64_at(b, 20)
    &&& i.modified_at == u64_at(b, 28)
    &&& forall|k: int| 0 <= k < 12 ==> #[trigger] i.blocks@[k] == u64_at(b, 36 + 8 * k)
    &&& b[132] == bool_byte(i.encrypted)
    &&& forall|k: int| 0 <= k < 24 ==> #[trigger] i.encryption_nonce@[k] == b[133 + k]
}

/// The inode whose record the bytes begin with; none when they hold no
/// valid record (too short, unknown file type, or a flag byte other than 0 or 1).
pub open spec fn inode_from_record(b: Seq<u8>) -> Option<Inode> {
    if exists|i: Inode| record_holds(b, i) {
        Some(choose|i: Inode| record_holds(b, i))
    } else {
        None
    }
}

/// A record names a single inode.
pub proof fn lemma_record_unique(b: Seq<u8>, i: Inode, j: Inode)
    requires
        record_holds(b, i),
        record_holds(b, j),
    ensures
        i == j,
{
    assert(i.blocks =~= j.blocks) by {
        assert forall|k: int| 0 <= k < 12 implies i.blocks[k] == j.blocks[k] by {
            assert(i.blocks@[k] == u64_at(b, 36 + 8 * k));
            assert(j.blocks@[k] == u64_at(b, 36 + 8 * k));
        }
    }
    assert(i.encryption_nonce =~= j.encryption_nonce) by {
        assert forall|k: int| 0 <= k < 24 implies i.encryption_nonce[k] == j.encryption_nonce[k] by {
            assert(i.encryption_nonce@[k] == b[133 + k]);
            assert(j.encryption_nonce@[k] == b[133 + k]);
        }
    }
}

/// What the record of `i` holds, field by field.
pub proof fn lemma_inode_record(i: Inode)
    ensures
        inode_record(i).len() == INODE_RECORD_LEN,
        record_holds(inode_record(i), i),
{
    lemma_le_lengths();
    lemma_words_le(i.blocks@);
    let r = inode_record(i);
    assert(r.len() == INODE_RECORD_LEN);
    assert(r.subrange(0, 4) =~= le32(file_type_code(i.mode)));
    lemma_u32_at_placed(r, 0, file_type_code(i.mode));
    assert(r.subrange(4, 12) =~= le64(i.size));
    lemma_u64_at_placed(r, 4, i.size);
    assert(r.subrange(12, 20) =~= le64(i.compressed_size));
    lemma_u64_at_placed(r, 12, i.compressed_size);
    assert(r.subrange(20, 28) =~= le64(i.created_at));
    lemma_u64_at_placed(r, 20, i.created_at);
    assert(r.subrange(28, 36) =~= le64(i.modified_at));
    lemma_u64_at_placed(r, 28, i.modified_at);
    let w = words_le(i.blocks@);
    assert forall|k: int| 0 <= k < 12 implies #[trigger] i.blocks@[k] == u64_at(r, 36 + 8 * k) by {
        assert(w.subrange(8 * k, 8 * k + 8) == le64(i.blocks@[k]));
        assert(r.subrange(36 + 8 * k, 36 + 8 * k + 8) =~= w.subrange(8 * k, 8 * k + 8));
        lemma_u64_at_placed(r, 36 + 8 * k, i.blocks@[k]);
    }
    assert(r[132] == bool_byte(i.encrypted));
    assert forall|k: int| 0 <= k < 24 implies #[trigger] i.encryption_nonce@[k] == r[133 + k] by {
    }
}

/// A record holds exactly the bytes of its inode's record.
pub proof fn lemma_record_bytes(b: Seq<u8>, i: Inode)
    requires
        record_holds(b, i),
    ensures
        b.subrange(0, INODE_RECORD_LEN as int) == inode_record(i),
{
    lemma_le_lengths();
    lemma_words_le(i.blocks@);
    let r = inode_record(i);
    let p = b.subrange(0, INODE_RECORD_LEN as int);
    lemma_u32_at_bytes(b, 0);
    lemma_u64_at_bytes(b, 4);
    lemma_u64_at_bytes(b, 12);
    lemma_u64_at_bytes(b, 20);
    lemma_u64_at_bytes(b, 28);
    let w = words_le(i.blocks@);
    assert forall|x: int| 0 <= x < INODE_RECORD_LEN implies p[x] == r[x] by {
        if x < 4 {
            assert(b.subrange(0, 4)[x] == r.subrange(0, 4)[x]);
        } else if x < 12 {
            assert(b.subrange(4, 12)[x - 4] == r.subrange(4, 12)[x - 4]);
        } else if x < 20 {
            assert(b.subrange(12, 20)[x - 12] == r.subrange(12, 20)[x - 12]);
        } else if x < 28 {
            assert(b.subrange(20, 28)[x - 20] == r.subrange(20, 28)[x - 20]);
        } else if x < 36 {
            assert(b.subrange(28, 36)[x - 28] == r.subrange(28, 36)[x - 28]);
        } else if x < 132 {
            let k = (x - 36) / 8;
            assert(i.blocks@[k] == u64_at(b, 36 + 8 * k));
            lemma_u64_at_bytes(b, 36 + 8 * k);
            assert(w.subrange(8 * k, 8 * k + 8) == le64(i.blocks@[k]));
            assert(b.subrange(36 + 8 * k, 36 + 8 * k + 8)[x - 36 - 8 * k] == w.subrange(
                8 * k,
                8 * k + 8,
            )[x - 36 - 8 * k]);
        } else if x == 132 {
        } else {
            assert(i.encryption_nonce@[x - 133] == b[133 + (x - 133)]);
        }
    }
    assert(p =~= r);
}

/// Reading the record of an inode gives that inode back, whatever follows it.
pub proof fn lemma_inode_round_trip(i: Inode, rest: Seq<u8>)
    ensures
        inode_from_record(inode_record(i) + rest) == Some(i),
{
    lemma_inode_record(i);
    let b = inode_record(i) + rest;
    let r = inode_record(i);
    assert(b.subrange(0, 4) =~= r.subrange(0, 4));
    assert forall|o: int| 0 <= o && o + 8 <= INODE_RECORD_LEN implies #[trigger] b.subrange(o, o + 8) == r.subrange(o, o + 8) by {
        assert(b.subrange(o, o + 8) =~= r.subrange(o, o + 8));
    }
    assert forall|k: int| 0 <= k < 12 implies #[trigger] i.blocks@[k] == u64_at(b, 36 + 8 * k) by {
        assert(b.subrange(36 + 8 * k, 36 + 8 * k + 8) == r.subrange(36 + 8 * k, 36 + 8 * k + 8));
        assert(i.blocks@[k] == u64_at(r, 36 + 8 * k));
    }
    assert(b.subrange(4, 12) == r.subrange(4, 12));
    assert(b.subrange(12, 20) == r.subrange(12, 20));
    assert(b.subrange(20, 28) == r.subrange(20, 28));
    assert(b.subrange(28, 36) == r.subrange(28, 36));
    assert forall|k: int| 0 <= k < 24 implies #[trigger] i.encryption_nonce@[k] == b[133 + k] by {
        assert(r[133 + k] == b[133 + k]);
    }
    assert(record_holds(b, i));
    let c = choose|j: Inode| record_holds(b, j);
    lemma_record_unique(b, i, c);
}

/// A record's inode is decided by its first `INODE_RECORD_LEN` bytes.
pub proof fn lemma_record_prefix(b: Seq<u8>, c: Seq<u8>)
    requires
        b.len() >= INODE_RECORD_LEN,
        c.len() >= INODE_RECORD_LEN,
        b.subrange(0, INODE_RECORD_LEN as int) == c.subrange(0, INODE_RECORD_LEN as int),
    ensures
        inode_from_record(b) == inode_from_record(c),
{
    let n = INODE_RECORD_LEN as int;
    assert forall|i: Inode| record_holds(b, i) implies record_holds(c, i) by {
        assert forall|o: int, l: int| 0 <= o && o + l <= n && 0 <= l implies #[trigger] b.subrange(o, o + l) == c.subrange(o, o + l) by {
            assert(b.subrange(o, o + l) =~= b.subrange(0, n).subrange(o, o + l));
            assert(c.subrange(o, o + l) =~= c.subrange(0, n).subrange(o, o + l));
        }
        assert(b.subrange(0, 4) == c.subrange(0, 4));
        assert(b.subrange(4, 12) == c.subrange(4, 12));
        assert(b.subrange(12, 20) == c.subrange(12, 20));
        assert(b.subrange(20, 28) == c.subrange(20, 28));
        assert(b.subrange(28, 36) == c.subrange(28, 36));
        assert forall|k: int| 0 <= k < 12 implies #[trigger] i.blocks@[k] == u64_at(c, 36 + 8 * k) by {
            assert(b.subrange(36 + 8 * k, 36 + 8 * k + 8) == c.subrange(36 + 8 * k, 36 + 8 * k + 8));
        }
        assert(b[132] == b.subrange(0, n)[132]);
        assert(c[132] == c.subrange(0, n)[132]);
        assert forall|k: int| 0 <= k < 24 implies #[trigger] i.encryption_nonce@[k] == c[133 + k] by {
            assert(b[133 + k] == b.subrange(0, n)[133 + k]);
            assert(c[133 + k] == c.subrange(0, n)[133 + k]);
        }
    }
    assert forall|i: Inode| record_holds(c, i) implies record_holds(b, i) by {
        assert forall|o: int, l: int| 0 <= o && o + l <= n && 0 <= l implies #[trigger] b.subrange(o, o + l) == c.subrange(o, o + l) by {
            assert(b.subrange(o, o + l) =~= b.subrange(0, n).subrange(o, o + l));
            assert(c.subrange(o, o + l) =~= c.subrange(0, n).subrange(o, o + l));
        }
        assert(b.subrange(0, 4) == c.subrange(0, 4));
        assert(b.subrange(4, 12) == c.subrange(4, 12));
        assert(b.subrange(12, 20) == c.subrange(12, 20));
        assert(b.subrange(20, 28) == c.subrange(20, 28));
        assert(b.subrange(28, 36) == c.subrange(28, 36));
        assert forall|k: int| 0 <= k < 12 implies #[trigger] i.blocks@[k] == u64_at(b, 36 + 8 * k) by {
            assert(b.subrange(36 + 8 * k, 36 + 8 * k + 8) == c.subrange(36 + 8 * k, 36 + 8 * k + 8));
        }
        assert(b[132] == b.subrange(0, n)[132]);
        assert(c[132] == c.subrange(0, n)[132]);
        assert forall|k: int| 0 <= k < 24 implies #[trigger] i.encryption_nonce@[k] == b[133 + k] by {
            assert(b[133 + k] == b.subrange(0, n)[133 + k]);
            assert(c[133 + k] == c.subrange(0, n)[133 + k]);
        }
    }
    if exists|i: Inode| record_holds(b, i) {
        let x = choose|i: Inode| record_holds(b, i);
        let y = choose|i: Inode| record_holds(c, i);
        lemma_record_unique(c, x, y);
    }
}

impl Inode {
    /// Creates a new empty inode with the specified type
    ///
    /// # Returns
    /// A new inode with:
    /// - Zero size
    /// - No allocated blocks
    /// - Zero timestamps (to be set by DiskManager)
    pub fn new(mode: FileType) -> (r: Self)
        ensures
            r.mode == mode,
            r.size == 0,
            r.compressed_size == 0,
            r.created_at == 0,
            r.modified_at == 0,
            forall|k: int| 0 <= k < 12 ==> r.blocks@[k] == 0,
            !r.encrypted,
            forall|k: int| 0 <= k < 24 ==> r.encryption_nonce@[k] == 0,
    {
        Self {
            mode,
            size: 0,
            compressed_size: 0,
            created_at: 0,
            modified_at: 0,
            blocks: [0u64; 12],
            encrypted: false,
            encryption_nonce: [0u8; 24],
        }
    }

    /// The record that stores this inode.
    pub fn to_bytes(&self) -> (r: Vec<u8>)
        ensures
            r@ == inode_record(*self),
            r@.len() == INODE_RECORD_LEN,
    {
        let mut v: Vec<u8> = Vec::new();
        let code: u32 = match self.mode {
            FileType::File => 0,
            FileType::Directory => 1,
        };
        push_u32(&mut v, code);
        push_u64(&mut v, self.size);
        push_u64(&mut v, self.compressed_size);
        push_u64(&mut v, self.created_at);
        push_u64(&mut v, self.modified_at);
        let ghost head = v@;
        let mut k: usize = 0;
        while k < DIRECT_BLOCKS
            invariant
                k <= 12,
                v@ == head + words_le(self.blocks@.subrange(0, k as int)),
            decreases 12 - k,
        {
            push_u64(&mut v, self.blocks[k]);
            proof {
                let s = self.blocks@.subrange(0, k + 1);
                assert(s.drop_last() =~= self.blocks@.subrange(0, k as int));
            }
            k = k + 1;
        }
        assert(self.blocks@.subrange(0, 12) =~= self.blocks@);
        v.push(if self.encrypted { 1u8 } else { 0u8 });
        push_all(&mut v, self.encryption_nonce.as_slice());
        proof {
            lemma_inode_record(*self);
            assert(v@ =~= inode_record(*self));
        }
        v
    }

    /// The inode whose record `bytes` begin with, or `None` when they hold no
    /// valid record.
    pub fn from_bytes(bytes: &[u8]) -> (r: Option<Inode>)
        ensures
            r == inode_from_record(bytes@),
    {
        if bytes.len() < INODE_RECORD_LEN {
            return None;
        }
        let code = read_u32(bytes, 0);
        let mode = if code == 0 {
            FileType::File
        } else if code == 1 {
            FileType::Directory
        } else {
            proof {
                assert forall|i: Inode| !record_holds(bytes@, i) by {}
            }
            return None;
        };
        let flag = bytes[132];
        if flag > 1 {
            proof {
                assert forall|i: Inode| !record_holds(bytes@, i) by {}
            }
            return None;
        }
        let mut blocks = [0u64; 12];
        let mut k: usize = 0;
        while k < DIRECT_BLOCKS
            invariant
                k <= 12,
                bytes@.len() >= INODE_RECORD_LEN,
                forall|j: int| 0 <= j < k ==> #[trigger] blocks@[j] == u64_at(bytes@, 36 + 8 * j),
            decreases 12 - k,
        {
            blocks[k] = read_u64(bytes, 36 + 8 * k);
            k = k + 1;
        }
        let mut nonce = [0u8; 24];
        let mut k: usize = 0;
        while k < 24
            invariant
                k <= 24,
                bytes@.len() >= INODE_RECORD_LEN,
                forall|j: int| 0 <= j < k ==> #[trigger] nonce@[j] == bytes@[133 + j],
            decreases 24 - k,
        {
            nonce[k] = bytes[133 + k];
            k = k + 1;
        }
        let inode = Inode {
            mode,
            size: read_u64(bytes, 4),
            compressed_size: read_u64(bytes, 12),
            created_at: read_u64(bytes, 20),
            modified_at: read_u64(bytes, 28),
            blocks,
            encrypted: flag == 1,
            encryption_nonce: nonce,
        };
        proof {
            assert(record_holds(bytes@, inode));
            let c = choose|i: Inode| record_holds(bytes@, i);
            lemma_record_unique(bytes@, inode, c);
        }
        Some(inode)
    }
}

} // verus!
