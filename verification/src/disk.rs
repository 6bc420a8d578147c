//! The file system over a byte image.
//!
//! `DiskManager` holds the whole image in memory together with the cached
//! superblock and, for an encrypted file system, the key. Its operations are
//! stated over the image bytes: which bytes an operation reads, which it
//! writes, and what it returns.
use crate::allocator::{AllocatorError, BlockAllocator, SimpleBlockAllocator};
use crate::bitmap::{
    bit_capacity, bit_is_set, first_free_bit, lemma_first_free_bit, with_bit_cleared, with_bit_set,
    Bitmap,
};
use crate::directory::{
    entry_record, entry_views, find_entry, find_inode, read_entries, scan_entries, DirectoryEntry,
    DirectoryError, EntryView, IoFault, MAX_FILENAME_LEN,
};
use vstd::array::{spec_array_fill_for_copy_type, spec_array_update};
use vstd::string::StringSliceAdditionalSpecFns;
use vstd::utf8::encode_utf8;
use crate::encoding::overwrite;
use crate::compression::{compress, decompress, zstd_frame, zstd_unframe};
use crate::encryption::{
    argon2_output, cipher_limit, decrypt_data, derive_key, encrypt_data, generate_nonce,
    generate_salt, xchacha_opened, xchacha_sealed, EncryptionError, EncryptionKey, TAG_LEN,
};
use crate::inode::{inode_from_record, inode_record, lemma_inode_record, FileType, Inode, INODE_SLOT_SIZE};
use crate::superblock::{
    fresh_superblock, superblock_from_record, superblock_record, SuperBlock, OIFS_MAGIC,
    SUPERBLOCK_RECORD_LEN,
};
use crate::BLOCK_SIZE;
use vstd::prelude::*;

verus! {

/// What went wrong inside the file system.
#[derive(Debug, Clone, Copy, PartialEq, Eq, Structural)]
pub enum FsFault {
    /// An inode slot lies past the end of the image
    OutOfBounds,
    /// The superblock places a bitmap or an inode slot outside the image
    Layout,
    /// The inode is not a directory
    NotDirectory,
    /// The directory has no block
    NoDirectoryBlock,
    /// The directory block has no room for the record
    DirectoryFull,
    /// A directory record cannot be read
    Corrupt,
    /// No entry has that name
    NotFound,
    /// An entry with that name is already there
    AlreadyExists,
    /// The data would reach past the 12 direct blocks (48KB)
    FileTooLarge,
    /// A compressed file cannot be appended to (written from an offset past 0)
    CompressedAppend,
    /// An encrypted file cannot be written in part
    EncryptedAppend,
    /// The path names nothing
    EmptyPath,
    /// The name cannot be stored in a directory record
    BadName(crate::directory::DirectoryError),
    /// zstd failed to compress or decompress
    Compression,
    /// The root directory did not receive inode 0
    RootInit,
}

/// Errors that can occur during disk manager operations
#[derive(Debug, Clone, Copy, PartialEq, Eq, Structural)]
pub enum DiskManagerError {
    Io(FsFault),
    /// A stored record does not decode
    Serialization,
    /// Invalid file system magic number
    InvalidMagic,
    /// File system image is too small
    FileTooSmall,
    /// Block allocation error
    Allocator(AllocatorError),
    /// The file system is encrypted and no password was given
    PasswordRequired,
    /// Stored data does not decrypt under the key
    DecryptionFailed,
    /// Key derivation or encryption failed
    Encryption(EncryptionError),
}

/// Compression mode for write operations
#[derive(Debug, Clone, Copy, PartialEq, Eq, Structural)]
pub enum CompressionMode {
    /// Always compress, regardless of file size
    Always,
    /// Never compress
    Never,
    /// Auto: compress files >= 8KB when that makes them smaller
    Auto,
}

impl Default for CompressionMode {
    fn default() -> (r: Self)
        ensures
            r == CompressionMode::Auto,
    {
        CompressionMode::Auto
    }
}

/// Defragmentation mode
#[derive(Debug, Clone, Copy, PartialEq, Eq, Structural)]
pub enum DefragMode {
    /// Safe mode: create new image and replace original after success
    Safe,
    /// In-place mode: directly modify original image
    InPlace,
}

impl Default for DefragMode {
    fn default() -> (r: Self)
        ensures
            r == DefragMode::Safe,
    {
        DefragMode::Safe
    }
}

/// Counts over the data bitmap, from which the fragmentation figures follow
#[derive(Debug, Clone, Copy, PartialEq, Eq, Structural)]
pub struct FragmentationCounts {
    /// Total number of data blocks
    pub total_blocks: usize,
    /// Number of used (allocated) blocks
    pub used_blocks: usize,
    /// Number of free blocks
    pub free_blocks: usize,
    /// Number of contiguous free runs (gaps)
    pub free_runs: usize,
    /// Size of largest contiguous free space
    pub largest_free_run: usize,
    /// Sum of the sizes of the free runs
    pub total_gap_size: usize,
}

/// What a rewrite of all file contents did
#[derive(Debug, Clone, Copy, PartialEq, Eq, Structural)]
pub struct RelayoutCounts {
    /// Number of regular files rewritten
    pub files_processed: usize,
    /// Bytes of regular-file contents rewritten (saturating)
    pub bytes_moved: u64,
}

/// The state a `DiskManager` stands for.
pub struct FsView {
    pub image: Seq<u8>,
    pub sb: SuperBlock,
    pub key: Option<Seq<u8>>,
}

/// Main disk manager interface for the OIFS file system
pub struct DiskManager {
    image: Vec<u8>,
    superblock: SuperBlock,
    key: Option<EncryptionKey>,
}

pub open spec fn key_view(k: Option<EncryptionKey>) -> Option<Seq<u8>> {
    match k {
        Some(k) => Some(k@),
        None => None,
    }
}

impl View for DiskManager {
    type V = FsView;

    closed spec fn view(&self) -> FsView {
        FsView { image: self.image@, sb: self.superblock, key: key_view(self.key) }
    }
}

/// Block `b` of the image, when the image holds all of it.
pub open spec fn block_of(img: Seq<u8>, b: int) -> Option<Seq<u8>> {
    if 0 <= b && (b + 1) * 4096 <= img.len() {
        Some(img.subrange(b * 4096, (b + 1) * 4096))
    } else {
        None
    }
}

/// Where the slot of inode `id` begins.
pub open spec fn inode_slot(sb: SuperBlock, id: int) -> int {
    sb.inode_table_block * 4096 + id * INODE_SLOT_SIZE
}

/// Reading inode `id`: out of bounds when its slot reaches past the image,
/// a serialization error when the slot holds no valid record.
pub open spec fn read_inode_at(img: Seq<u8>, sb: SuperBlock, id: int) -> Result<Inode, DiskManagerError> {
    let off = inode_slot(sb, id);
    if off + INODE_SLOT_SIZE > img.len() {
        Err(DiskManagerError::Io(FsFault::OutOfBounds))
    } else {
        match inode_from_record(img.subrange(off, off + INODE_SLOT_SIZE)) {
            Some(i) => Ok(i),
            None => Err(DiskManagerError::Serialization),
        }
    }
}

/// The image with inode `id` stored in its slot; none when the slot reaches
/// past the image.
pub open spec fn write_inode_at(img: Seq<u8>, sb: SuperBlock, id: int, inode: Inode) -> Option<Seq<u8>> {
    let off = inode_slot(sb, id);
    if off + INODE_SLOT_SIZE > img.len() {
        None
    } else {
        Some(overwrite(img, off, inode_record(inode)))
    }
}

/// Taking the first free bit of the bitmap in block `bb`, whose bit 0 stands
/// for id `start`: the new image and the id.
pub open spec fn alloc_at(img: Seq<u8>, bb: int, start: u64) -> (Seq<u8>, Result<u64, DiskManagerError>) {
    match block_of(img, bb) {
        None => (img, Err(DiskManagerError::Io(FsFault::Layout))),
        Some(bytes) => if start + bit_capacity(bytes) > u64::MAX + 1 {
            (img, Err(DiskManagerError::Io(FsFault::Layout)))
        } else {
            match first_free_bit(bytes) {
                None => (img, Err(DiskManagerError::Allocator(AllocatorError::NoSpace))),
                Some(i) => (
                    overwrite(img, bb * 4096, with_bit_set(bytes, i)),
                    Ok((start + i) as u64),
                ),
            }
        },
    }
}

/// Clearing the bit of id `id` in the bitmap of block `bb` whose bit 0 stands
/// for `start`; none when the image does not hold that block.
pub open spec fn free_at(img: Seq<u8>, bb: int, start: u64, id: u64) -> Option<Seq<u8>> {
    match block_of(img, bb) {
        None => None,
        Some(bytes) => if start + bit_capacity(bytes) > u64::MAX + 1 {
            None
        } else {
            Some(
            overwrite(
                img,
                bb * 4096,
                if id >= start {
                    with_bit_cleared(bytes, id - start)
                } else {
                    bytes
                },
            ),
        )
        },
    }
}

/// Looking up `name` in directory `parent`: the inode of the first entry with
/// that name among the records that can be read.
pub open spec fn dir_lookup(img: Seq<u8>, sb: SuperBlock, parent: u64, name: Seq<char>) -> Result<
    u64,
    DiskManagerError,
> {
    match read_inode_at(img, sb, parent as int) {
        Err(e) => Err(e),
        Ok(p) => if p.mode != FileType::Directory {
            Err(DiskManagerError::Io(FsFault::NotDirectory))
        } else if p.blocks[0] == 0 {
            Err(DiskManagerError::Io(FsFault::NotFound))
        } else {
            match block_of(img, p.blocks[0] as int) {
                None => Err(DiskManagerError::Io(FsFault::NotFound)),
                Some(b) => {
                    let sc = scan_entries(b, 0);
                    match find_inode(sc.entries, name) {
                        Some(id) => Ok(id),
                        None => if sc.end is None {
                            Err(DiskManagerError::Io(FsFault::Corrupt))
                        } else {
                            Err(DiskManagerError::Io(FsFault::NotFound))
                        },
                    }
                },
            }
        },
    }
}

/// One step of path resolution: the child named `part` of directory `cur`.
/// Records that cannot be read end the search.
pub open spec fn resolve_step(img: Seq<u8>, sb: SuperBlock, cur: u64, part: Seq<char>) -> Result<
    u64,
    DiskManagerError,
> {
    match read_inode_at(img, sb, cur as int) {
        Err(e) => Err(e),
        Ok(p) => if p.mode != FileType::Directory {
            Err(DiskManagerError::Io(FsFault::NotDirectory))
        } else if p.blocks[0] == 0 {
            Err(DiskManagerError::Io(FsFault::NotFound))
        } else {
            match block_of(img, p.blocks[0] as int) {
                None => Err(DiskManagerError::Io(FsFault::NotFound)),
                Some(b) => match find_inode(scan_entries(b, 0).entries, part) {
                    Some(id) => Ok(id),
                    None => Err(DiskManagerError::Io(FsFault::NotFound)),
                },
            }
        },
    }
}

/// Resolving the components `parts` one after the other from `cur`.
pub open spec fn walk(img: Seq<u8>, sb: SuperBlock, cur: u64, parts: Seq<Seq<char>>) -> Result<
    u64,
    DiskManagerError,
>
    decreases parts.len(),
{
    if parts.len() == 0 {
        Ok(cur)
    } else {
        match resolve_step(img, sb, cur, parts[0]) {
            Err(e) => Err(e),
            Ok(next) => walk(img, sb, next, parts.drop_first()),
        }
    }
}

/// The pieces of `s` between the separators '/', as `str::split` gives them.
pub open spec fn split_slash(s: Seq<char>) -> Seq<Seq<char>>
    decreases s.len(),
{
    if s.len() == 0 {
        seq![Seq::empty()]
    } else {
        let rest = split_slash(s.drop_first());
        if s[0] == '/' {
            seq![Seq::empty()] + rest
        } else {
            rest.update(0, seq![s[0]] + rest[0])
        }
    }
}

/// Whether a piece of a path names a step: not empty and not ".".
pub open spec fn is_step(c: Seq<char>) -> bool {
    c.len() > 0 && c != seq!['.']
}

/// The pieces of a list that name steps, in order.
pub open spec fn keep_steps(pieces: Seq<Seq<char>>) -> Seq<Seq<char>>
    decreases pieces.len(),
{
    if pieces.len() == 0 {
        pieces
    } else if is_step(pieces.last()) {
        keep_steps(pieces.drop_last()).push(pieces.last())
    } else {
        keep_steps(pieces.drop_last())
    }
}

/// The steps of a path.
pub open spec fn path_parts(path: Seq<char>) -> Seq<Seq<char>> {
    keep_steps(split_slash(path))
}

pub open spec fn string_views(v: Seq<String>) -> Seq<Seq<char>> {
    v.map_values(|s: String| s@)
}

/// `split_slash` gives at least one piece.
pub(crate) proof fn lemma_split_nonempty(s: Seq<char>)
    ensures
        split_slash(s).len() >= 1,
    decreases s.len(),
{
    if s.len() > 0 {
        lemma_split_nonempty(s.drop_first());
    }
}

/// The pieces of `s` between the separators, with `cur` put before the first.
pub open spec fn split_after(cur: Seq<char>, s: Seq<char>) -> Seq<Seq<char>> {
    split_slash(s).update(0, cur + split_slash(s)[0])
}

/// The pieces of `path` between the separators '/', as `str::split` gives
/// them, each made a `String`.
fn split_path(path: &str) -> (r: Vec<String>)
    ensures
        string_views(r@) == split_slash(path@),
{
    let n = path.unicode_len();
    let mut pieces: Vec<String> = Vec::new();
    let mut start: usize = 0;
    let mut i: usize = 0;
    proof {
        let whole = split_slash(path@);
        lemma_split_nonempty(path@);
        assert(path@.subrange(0, n as int) =~= path@);
        assert(Seq::<char>::empty() + whole[0] =~= whole[0]);
        assert(whole.update(0, whole[0]) =~= whole);
        assert(string_views(pieces@) =~= Seq::<Seq<char>>::empty());
        assert(string_views(pieces@) + split_after(path@.subrange(0, 0), path@.subrange(0, n as int)) =~= whole);
    }
    while i < n
        invariant
            n == path@.len(),
            start <= i <= n,
            string_views(pieces@) + split_after(path@.subrange(start as int, i as int), path@.subrange(i as int, n as int))
                == split_slash(path@),
        decreases n - i,
    {
        let c = path.get_char(i);
        let ghost cur = path@.subrange(start as int, i as int);
        let ghost rest = path@.subrange(i as int, n as int);
        let ghost rest2 = path@.subrange(i + 1, n as int);
        proof {
            assert(rest.drop_first() =~= rest2);
            assert(rest[0] == c);
            lemma_split_nonempty(rest2);
        }
        if c == '/' {
            let piece = String::from_str(path.substring_char(start, i));
            proof {
                let r2 = split_slash(rest2);
                assert(split_slash(rest) == seq![Seq::<char>::empty()] + r2);
                assert(split_after(cur, rest) =~= seq![cur] + r2);
                assert(Seq::<char>::empty() + r2[0] =~= r2[0]);
                assert(r2.update(0, r2[0]) =~= r2);
                assert(path@.subrange(i + 1, i + 1) =~= Seq::<char>::empty());
                assert(split_after(path@.subrange(i + 1, i + 1), rest2) =~= r2);
            }
            let ghost before = pieces@;
            pieces.push(piece);
            proof {
                assert(string_views(pieces@) =~= string_views(before).push(cur));
                assert(string_views(pieces@) + split_after(path@.subrange(i + 1, i + 1), rest2) =~= string_views(before)
                    + split_after(cur, rest));
            }
            start = i + 1;
        } else {
            proof {
                let r2 = split_slash(rest2);
                assert(split_slash(rest) == r2.update(0, seq![c] + r2[0]));
                assert(path@.subrange(start as int, i + 1) =~= cur.push(c));
                assert(cur + (seq![c] + r2[0]) =~= cur.push(c) + r2[0]);
                assert(split_after(cur, rest) =~= split_after(path@.subrange(start as int, i + 1), rest2));
            }
        }
        i = i + 1;
    }
    let last = String::from_str(path.substring_char(start, n));
    proof {
        let cur = path@.subrange(start as int, n as int);
        assert(path@.subrange(n as int, n as int) =~= Seq::<char>::empty());
        assert(split_slash(Seq::<char>::empty()) == seq![Seq::<char>::empty()]);
        assert(cur + Seq::<char>::empty() =~= cur);
        assert(split_after(cur, path@.subrange(n as int, n as int)) =~= seq![cur]);
    }
    let ghost before = pieces@;
    pieces.push(last);
    proof {
        assert(string_views(pieces@) =~= string_views(before).push(last@));
    }
    pieces
}

/// The steps of a path, as `String`s.
fn path_steps(path: &str) -> (r: Vec<String>)
    ensures
        string_views(r@) == path_parts(path@),
{
    let pieces = split_path(path);
    let n = pieces.len();
    let mut out: Vec<String> = Vec::new();
    let mut i: usize = 0;
    while i < n
        invariant
            n == pieces@.len(),
            i <= n,
            string_views(out@) == keep_steps(string_views(pieces@).subrange(0, i as int)),
        decreases n - i,
    {
        let p = &pieces[i];
        let ghost sub = string_views(pieces@).subrange(0, i + 1);
        assert(sub.drop_last() =~= string_views(pieces@).subrange(0, i as int));
        assert(sub.last() == p@);
        let empty = String::new();
        let dot: String = ".".to_owned();
        proof {
            reveal_strlit(".");
        }
        let keep = !(*p == empty) && !(*p == dot);
        assert(empty@ =~= Seq::<char>::empty());
        assert(dot@ =~= seq!['.']);
        assert(keep == is_step(p@)) by {
            if p@.len() == 0 {
                assert(p@ =~= empty@);
            }
        }
        assert(keep_steps(sub) == if is_step(p@) {
            keep_steps(string_views(pieces@).subrange(0, i as int)).push(p@)
        } else {
            keep_steps(string_views(pieces@).subrange(0, i as int))
        });
        if keep {
            let ghost prev = out@;
            out.push(p.clone());
            assert(string_views(out@) =~= string_views(prev).push(p@));
        }
        i = i + 1;
    }
    assert(string_views(pieces@).subrange(0, n as int) =~= string_views(pieces@));
    out
}

/// The record stored for a new entry, or why its name cannot be stored.
pub open spec fn new_entry_record(inode: u64, name: Seq<char>) -> Result<Seq<u8>, DirectoryError> {
    if name.contains('/') {
        Err(DirectoryError::Io(IoFault::InvalidInput))
    } else if encode_utf8(name).len() > MAX_FILENAME_LEN {
        Err(DirectoryError::EntryTooLarge)
    } else {
        Ok(entry_record(inode, 0, name))
    }
}

pub open spec fn min_int(a: int, b: int) -> int {
    if a <= b {
        a
    } else {
        b
    }
}

/// Adding an entry for `child` named `name` to directory block `blk`: the new
/// record goes where the list ends; as much of it as fits in the block is
/// written. A block that the image does not hold is left alone.
pub open spec fn add_entry(img: Seq<u8>, blk: u64, child: u64, name: Seq<char>, check_full: bool) -> (
    Seq<u8>,
    Result<(), DiskManagerError>,
) {
    match block_of(img, blk as int) {
        None => (img, Ok(())),
        Some(b) => match scan_entries(b, 0).end {
            None => (img, Err(DiskManagerError::Io(FsFault::Corrupt))),
            Some(off) => if check_full && off >= 4096 {
                (img, Err(DiskManagerError::Io(FsFault::DirectoryFull)))
            } else {
                match new_entry_record(child, name) {
                    Err(e) => (img, Err(DiskManagerError::Io(FsFault::BadName(e)))),
                    Ok(rec) => {
                        let fit = min_int(rec.len() as int, 4096 - off);
                        let img2 = overwrite(img, blk * 4096 + off, rec.subrange(0, fit));
                        if fit < rec.len() {
                            (img2, Err(DiskManagerError::Io(FsFault::DirectoryFull)))
                        } else {
                            (img2, Ok(()))
                        }
                    },
                }
            },
        },
    }
}

/// A fresh inode of the given kind, modified at `now`, whose first block is `first_block`.
pub open spec fn new_inode(kind: FileType, now: u64, first_block: u64) -> Inode {
    Inode {
        mode: kind,
        size: 0,
        compressed_size: 0,
        created_at: 0,
        modified_at: now,
        blocks: spec_array_update(spec_array_fill_for_copy_type::<u64, 12>(0u64), 0, first_block),
        encrypted: false,
        encryption_nonce: spec_array_fill_for_copy_type::<u8, 24>(0u8),
    }
}

/// Creating an entry of kind `kind` named `name` in directory `parent` at time
/// `now`: the image after, and the new inode's id.
///
/// A name that the parent already holds is refused. The new inode takes the
/// first free bit of the inode bitmap; a directory
/// also takes the first free data block for its records, which is zeroed. The inode is stored,
/// the entry is added to the parent's first block (a file refuses a parent
/// without one), and the parent's modification time becomes `now`.
pub open spec fn create_spec(s: FsView, parent: u64, name: Seq<char>, kind: FileType, now: u64) -> (
    Seq<u8>,
    Result<u64, DiskManagerError>,
) {
    let img = s.image;
    let sb = s.sb;
    match read_inode_at(img, sb, parent as int) {
        Err(e) => (img, Err(e)),
        Ok(p) => if p.mode != FileType::Directory {
            (img, Err(DiskManagerError::Io(FsFault::NotDirectory)))
        } else if dir_lookup(img, sb, parent, name) is Ok {
            (img, Err(DiskManagerError::Io(FsFault::AlreadyExists)))
        } else {
            let (img1, ra) = alloc_at(img, sb.inode_bitmap_block as int, 0);
            match ra {
                Err(e) => (img1, Err(e)),
                Ok(id) => {
                    let (img2, rd) = if kind == FileType::Directory {
                        alloc_at(img1, sb.data_bitmap_block as int, sb.data_block_start)
                    } else {
                        (img1, Ok(0u64))
                    };
                    match rd {
                        Err(e) => (img2, Err(e)),
                        Ok(d) => {
                            // A directory's block starts empty: its old bytes are zeroed
                            let img2 = if kind == FileType::Directory {
                                clear_block(img2, d as int)
                            } else {
                                img2
                            };
                            match write_inode_at(img2, sb, id as int, new_inode(kind, now, d)) {
                                None => (img2, Err(DiskManagerError::Io(FsFault::Layout))),
                                Some(img3) => if kind == FileType::File && p.blocks[0] == 0 {
                                    (img3, Err(DiskManagerError::Io(FsFault::NoDirectoryBlock)))
                                } else {
                                    let (img4, re) = add_entry(img3, p.blocks[0], id, name, kind == FileType::File);
                                    match re {
                                        Err(e) => (img4, Err(e)),
                                        Ok(_) => match write_inode_at(
                                            img4,
                                            sb,
                                            parent as int,
                                            Inode { modified_at: now, ..p },
                                        ) {
                                            None => (img4, Err(DiskManagerError::Io(FsFault::Layout))),
                                            Some(img5) => (img5, Ok(id)),
                                        },
                                    }
                                },
                            }
                        },
                    }
                },
            }
        },
    }
}

/// How many bytes of data blocks a file's contents occupy: the compressed
/// payload when there is one, else the logical size, plus the tag when encrypted.
pub open spec fn stored_len(i: Inode) -> int {
    (if i.compressed_size > 0 {
        i.compressed_size as int
    } else {
        i.size as int
    }) + (if i.encrypted {
        TAG_LEN as int
    } else {
        0
    })
}

/// Zero bytes, `n` of them.
pub open spec fn zeros(n: int) -> Seq<u8> {
    Seq::new(n as nat, |k: int| 0u8)
}

/// Collecting up to `want` bytes from the blocks in order, after `got`: a
/// block 0 (a hole) reads as zeros; a block the image does not hold is skipped.
pub open spec fn gather(img: Seq<u8>, blocks: Seq<u64>, want: int, got: Seq<u8>) -> Seq<u8>
    decreases blocks.len(),
{
    if blocks.len() == 0 || got.len() >= want {
        got
    } else if blocks[0] == 0 {
        gather(img, blocks.drop_first(), want, got + zeros(min_int(want - got.len(), 4096)))
    } else {
        match block_of(img, blocks[0] as int) {
            None => gather(img, blocks.drop_first(), want, got),
            Some(b) => gather(
                img,
                blocks.drop_first(),
                want,
                got + b.subrange(0, min_int(want - got.len(), 4096)),
            ),
        }
    }
}

/// Reading the contents of file `id`: the stored bytes, decrypted when the
/// inode is encrypted, decompressed when a file has a compressed payload.
pub open spec fn read_data_spec(s: FsView, id: u64) -> Result<Seq<u8>, DiskManagerError> {
    match read_inode_at(s.image, s.sb, id as int) {
        Err(e) => Err(e),
        Ok(i) => {
            let raw = gather(s.image, i.blocks@, stored_len(i), Seq::empty());
            let payload: Result<Seq<u8>, DiskManagerError> = if i.encrypted {
                match s.key {
                    None => Err(DiskManagerError::DecryptionFailed),
                    Some(k) => match xchacha_opened(k, i.encryption_nonce@, raw) {
                        None => Err(DiskManagerError::DecryptionFailed),
                        Some(p) => Ok(p),
                    },
                }
            } else {
                Ok(raw)
            };
            match payload {
                Err(e) => Err(e),
                Ok(p) => if i.mode == FileType::File && i.compressed_size > 0 {
                    match zstd_unframe(p) {
                        None => Err(DiskManagerError::Io(FsFault::Compression)),
                        Some(d) => Ok(d),
                    }
                } else {
                    Ok(p)
                },
            }
        },
    }
}

/// Whether a write in this mode compresses data of this length.
pub open spec fn should_compress(mode: CompressionMode, len: int) -> bool {
    match mode {
        CompressionMode::Always => true,
        CompressionMode::Never => false,
        CompressionMode::Auto => len >= 8192,
    }
}

/// Writing `buf` from byte `written` on at file offset `cur` into the file's
/// blocks: a block 0 is first given the first free data block; the bytes go to
/// block `cur / 4096` at `cur % 4096`, as many as fit there, and the walk goes
/// on with the rest. Offsets past the 12 blocks are refused. The image, the
/// block pointers, and the offset reached.
pub open spec fn write_chunks(
    img: Seq<u8>,
    sb: SuperBlock,
    blocks: [u64; 12],
    buf: Seq<u8>,
    written: int,
    cur: int,
) -> (Seq<u8>, [u64; 12], Result<int, DiskManagerError>)
    decreases buf.len() - written,
{
    if written >= buf.len() || written < 0 || cur < 0 {
        (img, blocks, Ok(cur))
    } else {
        let idx = cur / 4096;
        if idx >= 12 {
            (img, blocks, Err(DiskManagerError::Io(FsFault::FileTooLarge)))
        } else {
            let (img1, blocks1, rb) = if blocks[idx] == 0 {
                let (i1, r) = alloc_at(img, sb.data_bitmap_block as int, sb.data_block_start);
                match r {
                    Ok(b) => (i1, spec_array_update(blocks, idx, b), Ok(b)),
                    Err(e) => (i1, blocks, Err(e)),
                }
            } else {
                (img, blocks, Ok(blocks[idx]))
            };
            match rb {
                Err(e) => (img1, blocks1, Err(e)),
                Ok(b) => {
                    let off = cur % 4096;
                    let n = min_int(buf.len() - written, 4096 - off);
                    let img2 = if block_of(img1, b as int) is Some {
                        overwrite(img1, b * 4096 + off, buf.subrange(written, written + n))
                    } else {
                        img1
                    };
                    write_chunks(img2, sb, blocks1, buf, written + n, cur + n)
                },
            }
        }
    }
}

/// Whether a write of file `id` attempts compression: a file written from
/// offset 0 in a mode that compresses data of this length.
pub open spec fn compression_attempted(i: Inode, offset: u64, data: Seq<u8>, mode: CompressionMode) -> bool {
    i.mode == FileType::File && offset == 0 && should_compress(mode, data.len() as int)
}

/// Writing `data` to file `id` at `offset`, at time `now`, with `nonce` for an
/// encrypted file system:
/// - compression is attempted for a file written from offset 0 when the mode
///   asks for it (`Auto`: data of 8KB or more); `Always` keeps the frame,
///   `Auto` only when it is smaller than the data;
/// - a write at a nonzero offset into a file holding a compressed payload
///   is refused; data stored as it is leaves the file uncompressed;
/// - with a key, files are written whole (offset 0 only) and encrypted
///   after compression;
/// - the bytes go into the file's blocks from `offset`, blocks being
///   allocated as needed, at most 12 of them;
/// - the inode records the sizes, the block pointers and `now`.
pub open spec fn write_spec(
    s: FsView,
    id: u64,
    offset: u64,
    data: Seq<u8>,
    mode: CompressionMode,
    now: u64,
    nonce: [u8; 24],
) -> (Seq<u8>, Result<(), DiskManagerError>) {
    let img = s.image;
    let sb = s.sb;
    match read_inode_at(img, sb, id as int) {
        Err(e) => (img, Err(e)),
        Ok(i) => {
            let encrypting = s.key is Some && i.mode == FileType::File;
            let attempt = compression_attempted(i, offset, data, mode);
            if encrypting && offset != 0 {
                (img, Err(DiskManagerError::Io(FsFault::EncryptedAppend)))
            } else if offset != 0 && i.mode == FileType::File && i.compressed_size > 0 {
                (img, Err(DiskManagerError::Io(FsFault::CompressedAppend)))
            } else {
                let frame = zstd_frame(data);
                let is_compressed = attempt && (mode == CompressionMode::Always || frame.len() < data.len());
                let payload = if is_compressed {
                    frame
                } else {
                    data
                };
                if encrypting && payload.len() >= cipher_limit() {
                    (img, Err(DiskManagerError::Encryption(EncryptionError::EncryptionFailed)))
                } else {
                    let buf = if encrypting {
                        xchacha_sealed(s.key->0, nonce@, payload)
                    } else {
                        payload
                    };
                    let (img1, blocks1, rc) = write_chunks(img, sb, i.blocks, buf, 0, offset as int);
                    match rc {
                        Err(e) => (img1, Err(e)),
                        Ok(end) => {
                            let i2 = if encrypting {
                                Inode {
                                    size: data.len() as u64,
                                    compressed_size: if is_compressed {
                                        payload.len() as u64
                                    } else {
                                        0
                                    },
                                    modified_at: now,
                                    blocks: blocks1,
                                    encrypted: true,
                                    encryption_nonce: nonce,
                                    ..i
                                }
                            } else if is_compressed {
                                Inode {
                                    size: data.len() as u64,
                                    compressed_size: buf.len() as u64,
                                    modified_at: now,
                                    blocks: blocks1,
                                    ..i
                                }
                            } else {
                                Inode {
                                    size: if i.size >= end {
                                        i.size
                                    } else {
                                        end as u64
                                    },
                                    compressed_size: 0,
                                    modified_at: now,
                                    blocks: blocks1,
                                    ..i
                                }
                            };
                            match write_inode_at(img1, sb, id as int, i2) {
                                None => (img1, Err(DiskManagerError::Io(FsFault::Layout))),
                                Some(img2) => (img2, Ok(())),
                            }
                        },
                    }
                }
            }
        },
    }
}

/// The bytes a write stores before any encryption: the zstd frame when the
/// write compresses, else the data.
pub open spec fn write_payload(i: Inode, offset: u64, data: Seq<u8>, mode: CompressionMode) -> Seq<u8> {
    let frame = zstd_frame(data);
    if compression_attempted(i, offset, data, mode) && (mode == CompressionMode::Always || frame.len()
        < data.len()) {
        frame
    } else {
        data
    }
}

/// The cipher's contract for one key, nonce and plaintext: the sealed text
/// is a tag longer and opens to the plaintext.
pub open spec fn seal_opens(key: Seq<u8>, nonce: Seq<u8>, p: Seq<u8>) -> bool {
    &&& xchacha_sealed(key, nonce, p).len() == p.len() + TAG_LEN
    &&& xchacha_opened(key, nonce, xchacha_sealed(key, nonce, p)) == Some(p)
}

/// What a successful write learnt from the calls it made: a compressed
/// payload is not empty and decodes to the data, and an encrypted one opens
/// to the payload.
pub open spec fn write_facts(
    s: FsView,
    id: u64,
    offset: u64,
    data: Seq<u8>,
    mode: CompressionMode,
    nonce: [u8; 24],
) -> bool {
    read_inode_at(s.image, s.sb, id as int) matches Ok(i) ==> {
        &&& compression_attempted(i, offset, data, mode) ==> zstd_unframe(zstd_frame(data)) == Some(data)
            && zstd_frame(data).len() > 0
        &&& s.key matches Some(k) ==> (i.mode == FileType::File ==> seal_opens(
            k,
            nonce@,
            write_payload(i, offset, data, mode),
        ))
    }
}

/// Whether a write on an encrypted file system stopped because the operating
/// system's random source gave no nonce.
pub open spec fn random_failed(s: FsView, r: Result<(), DiskManagerError>) -> bool {
    s.key is Some && r == Err::<(), DiskManagerError>(
        DiskManagerError::Encryption(EncryptionError::RandomSourceFailed),
    )
}

/// The entries whose name is not `name`, in order.
pub open spec fn entries_without(entries: Seq<EntryView>, name: Seq<char>) -> Seq<EntryView>
    decreases entries.len(),
{
    if entries.len() == 0 {
        entries
    } else if entries.last().name == name {
        entries_without(entries.drop_last(), name)
    } else {
        entries_without(entries.drop_last(), name).push(entries.last())
    }
}

/// The inode of the last entry named `name`.
pub open spec fn last_match(entries: Seq<EntryView>, name: Seq<char>) -> Option<u64>
    decreases entries.len(),
{
    if entries.len() == 0 {
        None
    } else if entries.last().name == name {
        Some(entries.last().inode)
    } else {
        last_match(entries.drop_last(), name)
    }
}

/// The record of one entry, or why its name cannot be stored.
pub open spec fn stored_record(e: EntryView) -> Result<Seq<u8>, DirectoryError> {
    if e.name.contains('/') {
        Err(DirectoryError::Io(IoFault::InvalidInput))
    } else if encode_utf8(e.name).len() > MAX_FILENAME_LEN {
        Err(DirectoryError::EntryTooLarge)
    } else {
        Ok(entry_record(e.inode, e.hash, e.name))
    }
}

/// The records of the entries one after the other; the first entry whose name
/// cannot be stored stops it.
pub open spec fn records_of(entries: Seq<EntryView>) -> Result<Seq<u8>, DirectoryError>
    decreases entries.len(),
{
    if entries.len() == 0 {
        Ok(Seq::empty())
    } else {
        match records_of(entries.drop_last()) {
            Err(e) => Err(e),
            Ok(b) => match stored_record(entries.last()) {
                Err(e) => Err(e),
                Ok(r) => Ok(b + r),
            },
        }
    }
}

/// Freeing, in order, every id of `ids` that is not 0, in the bitmap of block
/// `bb` whose bit 0 stands for `start`; none when that bitmap cannot be used.
pub open spec fn free_all(img: Seq<u8>, bb: int, start: u64, ids: Seq<u64>) -> Option<Seq<u8>>
    decreases ids.len(),
{
    if ids.len() == 0 {
        Some(img)
    } else if ids[0] == 0 {
        free_all(img, bb, start, ids.drop_first())
    } else {
        match free_at(img, bb, start, ids[0]) {
            None => None,
            Some(i) => free_all(i, bb, start, ids.drop_first()),
        }
    }
}

/// Deleting the entry `name` of directory `parent` at time `now`.
///
/// The directory block is rewritten with the records of the other entries
/// (zeros after them); the last entry with that name is the one removed. Its
/// data blocks and its inode are then freed in their bitmaps, and the parent's
/// modification time becomes `now`.
pub open spec fn delete_spec(s: FsView, parent: u64, name: Seq<char>, now: u64) -> (
    Seq<u8>,
    Result<(), DiskManagerError>,
) {
    let img = s.image;
    let sb = s.sb;
    match read_inode_at(img, sb, parent as int) {
        Err(e) => (img, Err(e)),
        Ok(p) => if p.mode != FileType::Directory {
            (img, Err(DiskManagerError::Io(FsFault::NotDirectory)))
        } else if p.blocks[0] == 0 {
            (img, Err(DiskManagerError::Io(FsFault::NotFound)))
        } else {
            let blk = p.blocks[0];
            match block_of(img, blk as int) {
                None => (img, Err(DiskManagerError::Io(FsFault::NotFound))),
                Some(b) => {
                    let sc = scan_entries(b, 0);
                    if sc.end is None {
                        (img, Err(DiskManagerError::Io(FsFault::Corrupt)))
                    } else {
                        match last_match(sc.entries, name) {
                            None => (img, Err(DiskManagerError::Io(FsFault::NotFound))),
                            Some(target) => match records_of(entries_without(sc.entries, name)) {
                                Err(e) => (img, Err(DiskManagerError::Io(FsFault::BadName(e)))),
                                Ok(bytes) => if bytes.len() > 4096 {
                                    (img, Err(DiskManagerError::Io(FsFault::DirectoryFull)))
                                } else {
                                    let img1 = overwrite(
                                        img,
                                        blk * 4096,
                                        bytes + Seq::new((4096 - bytes.len()) as nat, |k: int| 0u8),
                                    );
                                    match read_inode_at(img1, sb, target as int) {
                                        Err(e) => (img1, Err(e)),
                                        Ok(fi) => match free_all(
                                            img1,
                                            sb.data_bitmap_block as int,
                                            sb.data_block_start,
                                            fi.blocks@,
                                        ) {
                                            None => (img1, Err(DiskManagerError::Io(FsFault::Layout))),
                                            Some(img2) => match free_at(
                                                img2,
                                                sb.inode_bitmap_block as int,
                                                0,
                                                target,
                                            ) {
                                                None => (img2, Err(DiskManagerError::Io(FsFault::Layout))),
                                                Some(img3) => match write_inode_at(
                                                    img3,
                                                    sb,
                                                    parent as int,
                                                    Inode { modified_at: now, ..p },
                                                ) {
                                                    None => (img3, Err(DiskManagerError::Io(FsFault::Layout))),
                                                    Some(img4) => (img4, Ok(())),
                                                },
                                            },
                                        },
                                    }
                                },
                            },
                        }
                    }
                },
            }
        },
    }
}

/// How many of the first `n` bits are set.
pub open spec fn used_count(bits: Seq<u8>, n: int) -> int
    decreases n,
{
    if n <= 0 {
        0
    } else {
        used_count(bits, n - 1) + if bit_is_set(bits, n - 1) {
            1int
        } else {
            0
        }
    }
}

/// How many runs of clear bits begin among the first `n` bits.
pub open spec fn run_starts(bits: Seq<u8>, n: int) -> int
    decreases n,
{
    if n <= 0 {
        0
    } else {
        run_starts(bits, n - 1) + if !bit_is_set(bits, n - 1) && (n - 1 == 0 || bit_is_set(
            bits,
            n - 2,
        )) {
            1int
        } else {
            0
        }
    }
}

/// The length of the run of clear bits that ends just before bit `n`.
pub open spec fn trailing_free(bits: Seq<u8>, n: int) -> int
    decreases n,
{
    if n <= 0 {
        0
    } else if bit_is_set(bits, n - 1) {
        0
    } else {
        trailing_free(bits, n - 1) + 1
    }
}

/// The length of the longest run of clear bits among the first `n` bits.
pub open spec fn longest_run(bits: Seq<u8>, n: int) -> int
    decreases n,
{
    if n <= 0 {
        0
    } else {
        let prev = longest_run(bits, n - 1);
        let t = trailing_free(bits, n);
        if prev >= t {
            prev
        } else {
            t
        }
    }
}

/// The counts over the first `n` bits of the data bitmap.
pub open spec fn fragmentation_of(bits: Seq<u8>, n: int) -> FragmentationCounts {
    FragmentationCounts {
        total_blocks: n as usize,
        used_blocks: used_count(bits, n) as usize,
        free_blocks: (n - used_count(bits, n)) as usize,
        free_runs: run_starts(bits, n) as usize,
        largest_free_run: longest_run(bits, n) as usize,
        total_gap_size: (n - used_count(bits, n)) as usize,
    }
}

/// Analyzing the data bitmap: the counts over its first
/// `block_count - data_block_start` bits.
pub open spec fn fragmentation_spec(s: FsView) -> Result<FragmentationCounts, DiskManagerError> {
    match block_of(s.image, s.sb.data_bitmap_block as int) {
        None => Err(DiskManagerError::Io(FsFault::Layout)),
        Some(bits) => if s.sb.block_count < s.sb.data_block_start || s.sb.block_count
            - s.sb.data_block_start > usize::MAX {
            Err(DiskManagerError::Io(FsFault::Layout))
        } else {
            Ok(fragmentation_of(bits, s.sb.block_count - s.sb.data_block_start))
        },
    }
}

pub(crate) proof fn lemma_counts_bounded(bits: Seq<u8>, n: int)
    requires
        n >= 0,
    ensures
        0 <= used_count(bits, n) <= n,
        0 <= run_starts(bits, n) <= n,
        0 <= trailing_free(bits, n) <= n,
        0 <= longest_run(bits, n) <= n,
    decreases n,
{
    if n > 0 {
        lemma_counts_bounded(bits, n - 1);
    }
}

/// A new file system of `total_size` bytes: a zeroed image with the superblock
/// in block 0, the root directory as inode 0 with the first data block for its
/// records. Refused when the image cannot hold the superblock record.
pub open spec fn format_spec(total_size: u64) -> Result<FsView, DiskManagerError> {
    if total_size < SUPERBLOCK_RECORD_LEN || total_size > usize::MAX {
        Err(DiskManagerError::FileTooSmall)
    } else {
        let sb = fresh_superblock(total_size / 4096);
        let img0 = overwrite(Seq::new(total_size as nat, |k: int| 0u8), 0, superblock_record(sb));
        let (img1, r1) = alloc_at(img0, sb.inode_bitmap_block as int, 0);
        match r1 {
            Err(e) => Err(e),
            Ok(root_id) => if root_id != 0 {
                Err(DiskManagerError::Io(FsFault::RootInit))
            } else {
                let (img2, r2) = alloc_at(img1, sb.data_bitmap_block as int, sb.data_block_start);
                match r2 {
                    Err(e) => Err(e),
                    Ok(d) => match write_inode_at(img2, sb, 0, new_inode(FileType::Directory, 0, d)) {
                        None => Err(DiskManagerError::Io(FsFault::Layout)),
                        Some(img3) => Ok(FsView { image: img3, sb, key: None }),
                    },
                }
            },
        }
    }
}

/// Opening an existing image: it must hold a whole block 0 with a superblock
/// record carrying the magic number; an encrypted file system needs the
/// password, from which the key is derived with the stored salt.
pub open spec fn open_spec(image: Seq<u8>, password: Option<Seq<u8>>) -> Result<FsView, DiskManagerError> {
    if image.len() < 4096 {
        Err(DiskManagerError::FileTooSmall)
    } else {
        match superblock_from_record(image.subrange(0, 4096)) {
            None => Err(DiskManagerError::Serialization),
            Some(sb) => if sb.magic != OIFS_MAGIC {
                Err(DiskManagerError::InvalidMagic)
            } else if !sb.encrypted {
                Ok(FsView { image, sb, key: None })
            } else {
                match password {
                    None => Err(DiskManagerError::PasswordRequired),
                    Some(pw) => match argon2_output(pw, sb.encryption_salt@) {
                        Some(h) => if h.len() >= 32 {
                            Ok(FsView { image, sb, key: Some(h.subrange(0, 32)) })
                        } else {
                            Err(DiskManagerError::Encryption(EncryptionError::KeyDerivationFailed))
                        },
                        None => Err(DiskManagerError::Encryption(EncryptionError::KeyDerivationFailed)),
                    },
                }
            },
        }
    }
}

/// A new encrypted file system: a formatted image whose superblock records
/// the salt and encryption version 1, with the key derived from the password.
pub open spec fn create_encrypted_spec(total_size: u64, password: Seq<u8>, salt: [u8; 16]) -> Result<FsView, DiskManagerError> {
    match format_spec(total_size) {
        Err(e) => Err(e),
        Ok(f) => match argon2_output(password, salt@) {
            None => Err(DiskManagerError::Encryption(EncryptionError::KeyDerivationFailed)),
            Some(h) => if h.len() < 32 {
                Err(DiskManagerError::Encryption(EncryptionError::KeyDerivationFailed))
            } else {
                let sb = SuperBlock { encrypted: true, encryption_salt: salt, encryption_version: 1, ..f.sb };
                Ok(FsView { image: overwrite(f.image, 0, superblock_record(sb)), sb, key: Some(h.subrange(0, 32)) })
            },
        },
    }
}

/// A write of `data` from offset 0 at some time and nonce, which when it
/// goes through learnt what a write learns from zstd and the cipher, or one
/// that the random source stopped: it ends in `img_end` with `r`.
pub open spec fn write_step(
    s: FsView,
    id: u64,
    data: Seq<u8>,
    mode: CompressionMode,
    img_end: Seq<u8>,
    r: Result<(), DiskManagerError>,
) -> bool {
    ||| exists|now: u64, nonce: [u8; 24]| (img_end, r) == #[trigger] write_spec(s, id, 0, data, mode, now, nonce)
        && (r is Ok ==> write_facts(s, id, 0, data, mode, nonce))
    ||| random_failed(s, r) && img_end == s.image
}

/// What the rewrite pass carries among inodes `0..n`, in id order: of each
/// inode that the bitmap `used` marks and that reads, a file with a nonzero
/// size with what reading its contents gives, or a directory with a block
/// that the image holds with the bytes of that block. Other inodes are passed
/// over; the first failed read of a file's contents is the error.
pub open spec fn live_files(s: FsView, used: Seq<u8>, n: nat) -> Result<
    Seq<(u64, Inode, Seq<u8>)>,
    DiskManagerError,
>
    decreases n,
{
    if n == 0 {
        Ok(Seq::empty())
    } else {
        match live_files(s, used, (n - 1) as nat) {
            Err(e) => Err(e),
            Ok(v) => if !bit_is_set(used, n - 1) {
                Ok(v)
            } else {
                match read_inode_at(s.image, s.sb, n - 1) {
                    Ok(i) => if i.mode == FileType::File && i.size > 0 {
                        match read_data_spec(s, (n - 1) as u64) {
                            Ok(d) => Ok(v.push(((n - 1) as u64, i, d))),
                            Err(e) => Err(e),
                        }
                    } else if i.mode == FileType::Directory && i.blocks[0] != 0 {
                        match block_of(s.image, i.blocks[0] as int) {
                            Some(bytes) => Ok(v.push(((n - 1) as u64, i, bytes))),
                            None => Ok(v),
                        }
                    } else {
                        Ok(v)
                    },
                    Err(_) => Ok(v),
                }
            },
        }
    }
}

/// What the rewrite pass carries: the live files and directories of the
/// inodes that the inode bitmap marks; a layout error when the image does not
/// hold the inode bitmap.
pub open spec fn relayout_plan(s: FsView) -> Result<Seq<(u64, Inode, Seq<u8>)>, DiskManagerError> {
    match block_of(s.image, s.sb.inode_bitmap_block as int) {
        None => Err(DiskManagerError::Io(FsFault::Layout)),
        Some(used) => live_files(s, used, s.sb.inode_count as nat),
    }
}

/// The carried files with their contents as byte sequences.
pub open spec fn file_views(v: Seq<(u64, Inode, Vec<u8>)>) -> Seq<(u64, Inode, Seq<u8>)> {
    v.map_values(|t: (u64, Inode, Vec<u8>)| (t.0, t.1, t.2@))
}

/// The mode a file is rewritten in: compressed again when it was compressed.
pub open spec fn relayout_mode(i: Inode) -> CompressionMode {
    if i.compressed_size > 0 {
        CompressionMode::Always
    } else {
        CompressionMode::Never
    }
}

/// The image with block `b` zeroed, when the image holds it.
pub open spec fn clear_block(img: Seq<u8>, b: int) -> Seq<u8> {
    match block_of(img, b) {
        Some(_) => overwrite(img, b * 4096, Seq::new(4096, |k: int| 0u8)),
        None => img,
    }
}

/// Block pointers that are all 0.
pub open spec fn no_blocks() -> [u64; 12] {
    spec_array_fill_for_copy_type::<u64, 12>(0u64)
}

/// Block pointers with `b` first and 0 after it.
pub open spec fn first_block_only(b: u64) -> [u64; 12] {
    spec_array_update(no_blocks(), 0, b)
}

/// Laying out one carried inode again, from image `s.image`:
/// - a directory takes the first free data block, which receives the bytes of
///   its old block, and its inode points at that block alone;
/// - a file's inode loses its block pointers, and the file is written back
///   whole from offset 0 in its `relayout_mode`, so that it takes the first
///   free data blocks.
/// The step ends in `img_end` with `r`.
pub open spec fn relay_step(
    s: FsView,
    id: u64,
    i: Inode,
    data: Seq<u8>,
    img_end: Seq<u8>,
    r: Result<(), DiskManagerError>,
) -> bool {
    let sb = s.sb;
    if i.mode == FileType::Directory {
        let (img1, ra) = alloc_at(s.image, sb.data_bitmap_block as int, sb.data_block_start);
        match ra {
            Err(e) => img_end == img1 && r == Err::<(), DiskManagerError>(e),
            Ok(b) => {
                let img2 = if block_of(img1, b as int) is Some && data.len() == 4096 {
                    overwrite(img1, b * 4096, data)
                } else {
                    img1
                };
                match write_inode_at(img2, sb, id as int, Inode { blocks: first_block_only(b), ..i }) {
                    None => img_end == img2 && r == Err::<(), DiskManagerError>(DiskManagerError::Io(FsFault::Layout)),
                    Some(img3) => img_end == img3 && r == Ok::<(), DiskManagerError>(()),
                }
            },
        }
    } else {
        match write_inode_at(s.image, sb, id as int, Inode { blocks: no_blocks(), ..i }) {
            None => img_end == s.image && r == Err::<(), DiskManagerError>(DiskManagerError::Io(FsFault::Layout)),
            Some(img1) => write_step(FsView { image: img1, ..s }, id, data, relayout_mode(i), img_end, r),
        }
    }
}

/// Laying out the carried inodes `items[k..]` again in order from image
/// `img`: the walk ends in image `img_end` with `r`, stopping at the first
/// step that fails.
pub open spec fn rewrites(
    sb: SuperBlock,
    key: Option<Seq<u8>>,
    img: Seq<u8>,
    items: Seq<(u64, Inode, Seq<u8>)>,
    k: int,
    img_end: Seq<u8>,
    r: Result<(), DiskManagerError>,
) -> bool
    decreases items.len() - k,
{
    if k < 0 || k >= items.len() {
        img_end == img && r == Ok::<(), DiskManagerError>(())
    } else {
        exists|mid: Seq<u8>, rm: Result<(), DiskManagerError>|
            #[trigger] relay_step(FsView { image: img, sb, key }, items[k].0, items[k].1, items[k].2, mid, rm)
                && match rm {
                Err(e) => img_end == mid && r == Err::<(), DiskManagerError>(e),
                Ok(_) => rewrites(sb, key, mid, items, k + 1, img_end, r),
            }
    }
}

/// How many of the first `k` carried files are regular files.
pub open spec fn files_counted(items: Seq<(u64, Inode, Seq<u8>)>, k: int) -> int
    decreases k,
{
    if k <= 0 {
        0
    } else {
        files_counted(items, k - 1) + if items[k - 1].1.mode == FileType::File {
            1int
        } else {
            0int
        }
    }
}

/// The bytes of the regular files among the first `k` carried files.
pub open spec fn bytes_counted(items: Seq<(u64, Inode, Seq<u8>)>, k: int) -> int
    decreases k,
{
    if k <= 0 {
        0
    } else {
        bytes_counted(items, k - 1) + if items[k - 1].1.mode == FileType::File {
            items[k - 1].2.len() as int
        } else {
            0int
        }
    }
}

proof fn lemma_live_files_err(s: FsView, used: Seq<u8>, m: nat, n: nat, e: DiskManagerError)
    requires
        m <= n,
        live_files(s, used, m) == Err::<Seq<(u64, Inode, Seq<u8>)>, DiskManagerError>(e),
    ensures
        live_files(s, used, n) == Err::<Seq<(u64, Inode, Seq<u8>)>, DiskManagerError>(e),
    decreases n - m,
{
    if m < n {
        lemma_live_files_err(s, used, m, (n - 1) as nat, e);
    }
}

/// Seconds since the Unix epoch by the system clock (std's `SystemTime`), 0 for a
/// clock set before the epoch. Nothing is claimed of the value.
#[verifier::external_body]
fn unix_now() -> u64 {
    std::time::SystemTime::now().duration_since(std::time::UNIX_EPOCH).map(|d| d.as_secs()).unwrap_or(0)
}

pub proof fn lemma_overwrite_len(b: Seq<u8>, off: int, src: Seq<u8>)
    requires
        0 <= off,
        off + src.len() <= b.len(),
    ensures
        overwrite(b, off, src).len() == b.len(),
        overwrite(b, off, src).subrange(off, off + src.len()) == src,
        forall|i: int|
            off <= i < off + src.len() ==> #[trigger] overwrite(b, off, src)[i] == src[i - off],
        forall|i: int|
            0 <= i < b.len() && !(off <= i < off + src.len()) ==> #[trigger] overwrite(
                b,
                off,
                src,
            )[i] == b[i],
{
    assert(overwrite(b, off, src).subrange(off, off + src.len()) =~= src);
}

proof fn lemma_scan_end_in_block(b: Seq<u8>)
    ensures
        scan_entries(b, 0).end matches Some(off) ==> 0 <= off <= b.len(),
{
    crate::directory::lemma_scan_end_bound(b, 0);
}

proof fn lemma_gather_len(img: Seq<u8>, blocks: Seq<u64>, want: int, got: Seq<u8>)
    ensures
        gather(img, blocks, want, got).len() <= if got.len() >= want { got.len() as int } else { want },
        got.len() <= gather(img, blocks, want, got).len(),
    decreases blocks.len(),
{
    if blocks.len() == 0 || got.len() >= want {
    } else if blocks[0] == 0 {
        lemma_gather_len(img, blocks.drop_first(), want, got + zeros(min_int(want - got.len(), 4096)));
    } else {
        match block_of(img, blocks[0] as int) {
            None => lemma_gather_len(img, blocks.drop_first(), want, got),
            Some(b) => lemma_gather_len(
                img,
                blocks.drop_first(),
                want,
                got + b.subrange(0, min_int(want - got.len(), 4096)),
            ),
        }
    }
}

/// Asking for more than 12 blocks can hold gives the same bytes.
proof fn lemma_gather_cap(img: Seq<u8>, blocks: Seq<u64>, want: int, more: int, got: Seq<u8>)
    requires
        want <= more,
        want >= got.len() + 4096 * blocks.len(),
    ensures
        gather(img, blocks, want, got) == gather(img, blocks, more, got),
    decreases blocks.len(),
{
    if blocks.len() == 0 || got.len() >= want {
    } else if blocks[0] == 0 {
        assert(min_int(want - got.len(), 4096) == 4096);
        assert(min_int(more - got.len(), 4096) == 4096);
        lemma_gather_cap(img, blocks.drop_first(), want, more, got + zeros(4096));
    } else {
        match block_of(img, blocks[0] as int) {
            None => lemma_gather_cap(img, blocks.drop_first(), want, more, got),
            Some(b) => {
                assert(min_int(want - got.len(), 4096) == 4096);
                assert(min_int(more - got.len(), 4096) == 4096);
                lemma_gather_cap(
                    img,
                    blocks.drop_first(),
                    want,
                    more,
                    got + b.subrange(0, 4096),
                )
            },
        }
    }
}

/// Freeing ids in a bitmap that can be used always works, and keeps the length.
proof fn lemma_free_all_some(img: Seq<u8>, bb: int, start: u64, ids: Seq<u64>, id: u64)
    requires
        free_at(img, bb, start, id) is Some,
    ensures
        free_all(img, bb, start, ids) is Some,
    decreases ids.len(),
{
    if ids.len() > 0 {
        if ids[0] == 0 {
            lemma_free_all_some(img, bb, start, ids.drop_first(), id);
        } else {
            let i = free_at(img, bb, start, ids[0])->0;
            let bytes = block_of(img, bb)->0;
            lemma_overwrite_len(img, bb * 4096, if ids[0] >= start { with_bit_cleared(bytes, ids[0] - start) } else { bytes });
            lemma_free_all_some(i, bb, start, ids.drop_first(), id);
        }
    }
}

/// Whether freeing in a bitmap works depends only on the image's length.
proof fn lemma_free_at_fails(a: Seq<u8>, b: Seq<u8>, bb: int, start: u64, id: u64)
    requires
        a.len() == b.len(),
        free_at(a, bb, start, id) is None,
    ensures
        forall|x: u64| #[trigger] free_at(b, bb, start, x) is None,
{
}

proof fn lemma_free_at_fails_len(a: Seq<u8>, b: Seq<u8>, bb: int, start: u64, id: u64)
    requires
        a.len() == b.len(),
        free_at(a, bb, start, id) is Some,
    ensures
        free_at(b, bb, start, id) is Some,
{
}

proof fn lemma_block_index(b: int, n: int)
    requires
        0 <= b,
        0 <= n,
    ensures
        b < n / 4096 <==> (b + 1) * 4096 <= n,
{
    assert(b < n / 4096 <==> (b + 1) * 4096 <= n) by (nonlinear_arith)
        requires
            0 <= b,
            0 <= n,
    ;
}

impl DiskManager {
    /// Bytes the image holds.
    pub closed spec fn image_len(&self) -> nat {
        self.image@.len()
    }

    /// Makes a new file system of `total_size` bytes.
    pub fn format(total_size: u64) -> (r: Result<DiskManager, DiskManagerError>)
        ensures
            match format_spec(total_size) {
                Ok(v) => r matches Ok(dm) && dm@ == v,
                Err(e) => r matches Err(x) && x == e,
            },
    {
        if total_size < SUPERBLOCK_RECORD_LEN as u64 || total_size > usize::MAX as u64 {
            return Err(DiskManagerError::FileTooSmall);
        }
        let n = total_size as usize;
        let zeros: Vec<u8> = vec![0u8; n];
        let block_count = total_size / BLOCK_SIZE as u64;
        let superblock = SuperBlock::new(block_count);
        let mut dm = DiskManager { image: zeros, superblock, key: None };
        assert(dm.image@ =~= Seq::new(total_size as nat, |k: int| 0u8));
        let sb_bytes = superblock.to_bytes();
        dm.write_range(0, sb_bytes.as_slice());
        let root_id = dm.allocate_from(superblock.inode_bitmap_block, 0)?;
        if root_id != 0 {
            return Err(DiskManagerError::Io(FsFault::RootInit));
        }
        let root_data = dm.allocate_from(superblock.data_bitmap_block, superblock.data_block_start)?;
        let mut root_inode = Inode::new(FileType::Directory);
        root_inode.blocks[0] = root_data;
        proof {
            assert(root_inode.blocks =~= new_inode(FileType::Directory, 0, root_data).blocks);
            assert(root_inode.encryption_nonce =~= new_inode(FileType::Directory, 0, root_data).encryption_nonce);
        }
        dm.write_inode_internal(0, &root_inode)?;
        Ok(dm)
    }

    /// Opens an existing image; `password` is needed for an encrypted file system.
    pub fn from_image(image: Vec<u8>, password: Option<&str>) -> (r: Result<DiskManager, DiskManagerError>)
        ensures
            match open_spec(image@, match password { Some(p) => Some(p.spec_bytes()), None => None }) {
                Ok(v) => r matches Ok(dm) && dm@ == v,
                Err(e) => r matches Err(x) && x == e,
            },
    {
        if image.len() < BLOCK_SIZE {
            return Err(DiskManagerError::FileTooSmall);
        }
        let superblock = match SuperBlock::from_bytes(&image.as_slice()[0..BLOCK_SIZE]) {
            Some(sb) => sb,
            None => return Err(DiskManagerError::Serialization),
        };
        if superblock.magic != OIFS_MAGIC {
            return Err(DiskManagerError::InvalidMagic);
        }
        if !superblock.encrypted {
            return Ok(DiskManager { image, superblock, key: None });
        }
        let pw = match password {
            Some(p) => p,
            None => return Err(DiskManagerError::PasswordRequired),
        };
        match derive_key(pw, &superblock.encryption_salt) {
            Ok(key) => Ok(DiskManager { image, superblock, key: Some(key) }),
            Err(e) => Err(DiskManagerError::Encryption(e)),
        }
    }

    /// Makes a new encrypted file system of `total_size` bytes, with `salt` for the key.
    pub fn create_encrypted_with_salt(total_size: u64, password: &str, salt: [u8; 16]) -> (r: Result<DiskManager, DiskManagerError>)
        ensures
            match create_encrypted_spec(total_size, password.spec_bytes(), salt) {
                Ok(v) => r matches Ok(dm) && dm@ == v,
                Err(e) => r matches Err(x) && x == e,
            },
    {
        let mut dm = DiskManager::format(total_size)?;
        let key = match derive_key(password, &salt) {
            Ok(k) => k,
            Err(e) => return Err(DiskManagerError::Encryption(e)),
        };
        let mut superblock = dm.superblock;
        superblock.encrypted = true;
        superblock.encryption_salt = salt;
        superblock.encryption_version = 1;
        let sb_bytes = superblock.to_bytes();
        proof {
            crate::superblock::lemma_superblock_round_trip(superblock, Seq::empty());
        }
        dm.write_range(0, sb_bytes.as_slice());
        dm.superblock = superblock;
        dm.key = Some(key);
        Ok(dm)
    }

    /// Makes a new encrypted file system of `total_size` bytes with a random salt.
    pub fn create_encrypted(total_size: u64, password: &str) -> (r: Result<DiskManager, DiskManagerError>)
        ensures
            (exists|salt: [u8; 16]| match #[trigger] create_encrypted_spec(total_size, password.spec_bytes(), salt) {
                Ok(v) => r matches Ok(dm) && dm@ == v,
                Err(e) => r matches Err(x) && x == e,
            }) || (r matches Err(x) && x == DiskManagerError::Encryption(EncryptionError::RandomSourceFailed)),
    {
        let salt = match generate_salt() {
            Ok(s) => s,
            Err(e) => return Err(DiskManagerError::Encryption(e)),
        };
        DiskManager::create_encrypted_with_salt(total_size, password, salt)
    }

    /// Accessor for SuperBlock (Copy)
    pub fn superblock(&self) -> (r: SuperBlock)
        ensures
            r == self@.sb,
    {
        self.superblock
    }

    /// The image bytes.
    pub fn image(&self) -> (r: &Vec<u8>)
        ensures
            r@ == self@.image,
    {
        &self.image
    }

    /// Writes `src` into the image at `off`.
    fn write_range(&mut self, off: usize, src: &[u8])
        requires
            off + src@.len() <= old(self)@.image.len(),
        ensures
            final(self)@ == (FsView { image: overwrite(old(self)@.image, off as int, src@), ..old(self)@ }),
    {
        let n = src.len();
        let len = self.image.len();
        let mut k: usize = 0;
        while k < n
            invariant
                n == src@.len(),
                k <= n,
                len == self.image@.len(),
                off + n <= self.image@.len(),
                self.image@.len() == old(self).image@.len(),
                self.superblock == old(self).superblock,
                self.key == old(self).key,
                forall|i: int|
                    0 <= i < self.image@.len() ==> #[trigger] self.image@[i] == if off <= i < off
                        + k {
                        src@[i - off]
                    } else {
                        old(self).image@[i]
                    },
            decreases n - k,
        {
            self.image.set(off + k, src[k]);
            k = k + 1;
        }
        proof {
            lemma_overwrite_len(old(self).image@, off as int, src@);
            assert(self.image@ =~= overwrite(old(self).image@, off as int, src@));
        }
    }

    /// Zeroes block `b` when the image holds it.
    fn zero_block(&mut self, b: u64)
        ensures
            final(self)@ == (FsView { image: clear_block(old(self)@.image, b as int), ..old(self)@ }),
    {
        let n = self.image.len();
        proof {
            lemma_block_index(b as int, n as int);
        }
        if b < (n / BLOCK_SIZE) as u64 {
            let zeros: Vec<u8> = vec![0u8; BLOCK_SIZE];
            self.write_range(b as usize * BLOCK_SIZE, zeros.as_slice());
            assert(zeros@ =~= Seq::new(4096, |k: int| 0u8));
        }
    }

    /// A copy of block `block_id`, or `None` when the image does not hold it.
    pub fn get_block_copy(&self, block_id: u64) -> (r: Option<Vec<u8>>)
        ensures
            match block_of(self@.image, block_id as int) {
                Some(b) => r matches Some(v) && v@ == b,
                None => r is None,
            },
    {
        let n = self.image.len();
        proof {
            lemma_block_index(block_id as int, n as int);
        }
        if block_id >= (n / BLOCK_SIZE) as u64 {
            return None;
        }
        let start = block_id as usize * BLOCK_SIZE;
        let mut v: Vec<u8> = Vec::new();
        v.extend_from_slice(&self.image[start..start + BLOCK_SIZE]);
        Some(v)
    }

    /// Adds the record of `child` named `name` to directory block `blk`.
    fn add_entry_exec(&mut self, blk: u64, child: u64, name: &str, check_full: bool) -> (r: Result<(), DiskManagerError>)
        ensures
            (final(self)@.image, r) == add_entry(old(self)@.image, blk, child, name@, check_full),
            final(self)@.sb == old(self)@.sb,
            final(self)@.key == old(self)@.key,
    {
        let _n = self.image.len();
        let block = match self.get_block_copy(blk) {
            Some(b) => b,
            None => return Ok(()),
        };
        let (_entries, end) = read_entries(block.as_slice());
        let off = match end {
            Some(o) => o,
            None => return Err(DiskManagerError::Io(FsFault::Corrupt)),
        };
        proof {
            lemma_scan_end_in_block(block@);
        }
        if check_full && off >= BLOCK_SIZE {
            return Err(DiskManagerError::Io(FsFault::DirectoryFull));
        }
        let entry = DirectoryEntry { inode: child, hash: 0, name: name.to_owned() };
        let mut rec: Vec<u8> = Vec::new();
        match entry.serialize_into(&mut rec) {
            Ok(()) => {},
            Err(e) => return Err(DiskManagerError::Io(FsFault::BadName(e))),
        }
        let room = BLOCK_SIZE - off;
        let fit = if rec.len() <= room { rec.len() } else { room };
        let start = blk as usize * BLOCK_SIZE + off;
        self.write_range(start, &rec.as_slice()[0..fit]);
        if fit < rec.len() {
            Err(DiskManagerError::Io(FsFault::DirectoryFull))
        } else {
            Ok(())
        }
    }

    /// Creates an entry of kind `kind` in directory `parent_inode_id`, with `now`
    /// as the modification time of the new inode and of the parent.
    pub fn create_entry_at(&mut self, parent_inode_id: u64, name: &str, kind: FileType, now: u64) -> (r: Result<u64, DiskManagerError>)
        ensures
            (final(self)@.image, r) == create_spec(old(self)@, parent_inode_id, name@, kind, now),
            final(self)@.sb == old(self)@.sb,
            final(self)@.key == old(self)@.key,
    {
        // 1. Read Parent
        let parent_inode = self.read_inode_internal(parent_inode_id)?;
        if parent_inode.mode != FileType::Directory {
            return Err(DiskManagerError::Io(FsFault::NotDirectory));
        }
        // The name must not be taken
        if self.lookup(parent_inode_id, name).is_ok() {
            return Err(DiskManagerError::Io(FsFault::AlreadyExists));
        }
        // 2. Allocate Inode
        let inode_id = self.allocate_from(self.superblock.inode_bitmap_block, 0)?;
        // 3. A directory gets a data block for its records
        let first_block = if kind == FileType::Directory {
            self.allocate_from(self.superblock.data_bitmap_block, self.superblock.data_block_start)?
        } else {
            0
        };
        // A directory's block starts empty
        if kind == FileType::Directory {
            self.zero_block(first_block);
        }
        // 4. Init Inode
        let mut new_node = Inode::new(kind);
        new_node.modified_at = now;
        new_node.blocks[0] = first_block;
        proof {
            assert(new_node.blocks =~= new_inode(kind, now, first_block).blocks);
            assert(new_node.encryption_nonce =~= new_inode(kind, now, first_block).encryption_nonce);
        }
        self.write_inode_internal(inode_id, &new_node)?;
        // 5. Update Parent Dir
        let dir_block_id = parent_inode.blocks[0];
        if kind == FileType::File && dir_block_id == 0 {
            return Err(DiskManagerError::Io(FsFault::NoDirectoryBlock));
        }
        self.add_entry_exec(dir_block_id, inode_id, name, kind == FileType::File)?;
        // 6. Update Parent Mtime
        let mut parent_inode = parent_inode;
        parent_inode.modified_at = now;
        self.write_inode_internal(parent_inode_id, &parent_inode)?;
        Ok(inode_id)
    }

    /// Creates a new file in a directory
    ///
    /// # Errors
    /// - Parent is not a directory
    /// - File with same name already exists
    /// - No free inodes available
    pub fn create_file(&mut self, parent_inode_id: u64, name: &str) -> (r: Result<u64, DiskManagerError>)
        ensures
            exists|now: u64| (final(self)@.image, r) == create_spec(old(self)@, parent_inode_id, name@, FileType::File, now),
            final(self)@.sb == old(self)@.sb,
            final(self)@.key == old(self)@.key,
    {
        let now = unix_now();
        self.create_entry_at(parent_inode_id, name, FileType::File, now)
    }

    /// Creates a new directory in a parent directory
    ///
    /// # Errors
    /// - Parent is not a directory
    /// - Directory with same name already exists
    /// - No free inodes or data blocks available
    pub fn create_directory(&mut self, parent_inode_id: u64, name: &str) -> (r: Result<u64, DiskManagerError>)
        ensures
            exists|now: u64| (final(self)@.image, r) == create_spec(old(self)@, parent_inode_id, name@, FileType::Directory, now),
            final(self)@.sb == old(self)@.sb,
            final(self)@.key == old(self)@.key,
    {
        let now = unix_now();
        self.create_entry_at(parent_inode_id, name, FileType::Directory, now)
    }

    /// Collects up to `want` bytes from the blocks of `blocks`.
    fn gather_exec(&self, blocks: &[u64; 12], want: u64) -> (r: Vec<u8>)
        ensures
            r@ == gather(self@.image, blocks@, want as int, Seq::empty()),
    {
        let _n = self.image.len();
        let mut got: Vec<u8> = Vec::new();
        let mut k: usize = 0;
        assert(blocks@.subrange(0, 12) =~= blocks@);
        while k < 12
            invariant
                k <= 12,
                gather(self@.image, blocks@, want as int, Seq::empty()) == gather(
                    self@.image,
                    blocks@.subrange(k as int, 12),
                    want as int,
                    got@,
                ),
            decreases 12 - k,
        {
            let ghost rest = blocks@.subrange(k as int, 12);
            assert(rest.drop_first() =~= blocks@.subrange(k + 1, 12));
            assert(rest[0] == blocks@[k as int]);
            let blk = blocks[k];
            if got.len() as u64 >= want {
                return got;
            }
            if blk == 0 {
                // A hole reads as zeros
                let rem = (want - got.len() as u64);
                let take: usize = if rem < BLOCK_SIZE as u64 { rem as usize } else { BLOCK_SIZE };
                assert(take as int == min_int(want - got@.len(), 4096));
                let ghost before = got@;
                let mut j: usize = 0;
                while j < take
                    invariant
                        j <= take,
                        got@ == before + zeros(j as int),
                    decreases take - j,
                {
                    got.push(0u8);
                    j = j + 1;
                    assert(got@ =~= before + zeros(j as int));
                }
                k = k + 1;
                continue;
            }
            match self.get_block_copy(blk) {
                None => {
                    assert(block_of(self@.image, blk as int) is None);
                },
                Some(b) => {
                    assert(block_of(self@.image, blk as int) == Some(b@));
                    let rem = (want - got.len() as u64);
                    let take: usize = if rem < BLOCK_SIZE as u64 { rem as usize } else { BLOCK_SIZE };
                    assert(take as int == min_int(want - got@.len(), 4096));
                    let ghost before = got@;
                    got.extend_from_slice(&b.as_slice()[0..take]);
                    assert(got@ =~= before + b@.subrange(0, take as int));
                },
            }
            k = k + 1;
        }
        assert(blocks@.subrange(12, 12).len() == 0);
        got
    }

    /// Reads data from a file
    ///
    /// The stored bytes are decrypted when the inode is encrypted, and
    /// decompressed (zstd) when a file has a compressed payload.
    pub fn read_data(&self, inode_id: u64) -> (r: Result<Vec<u8>, DiskManagerError>)
        ensures
            match read_data_spec(self@, inode_id) {
                Ok(d) => r matches Ok(v) && v@ == d,
                Err(e) => r == Err::<Vec<u8>, DiskManagerError>(e),
            },
    {
        let inode = self.read_inode_internal(inode_id)?;
        let payload_len = if inode.compressed_size > 0 { inode.compressed_size } else { inode.size };
        let want: u64 = if inode.encrypted {
            if payload_len > u64::MAX - TAG_LEN as u64 { u64::MAX } else { payload_len + TAG_LEN as u64 }
        } else {
            payload_len
        };
        let raw = self.gather_exec(&inode.blocks, want);
        proof {
            lemma_gather_len(self@.image, inode.blocks@, want as int, Seq::empty());
            if inode.encrypted && payload_len > u64::MAX - TAG_LEN as u64 {
                lemma_gather_cap(self@.image, inode.blocks@, want as int, stored_len(inode), Seq::empty());
            }
        }
        let payload = if inode.encrypted {
            match &self.key {
                None => return Err(DiskManagerError::DecryptionFailed),
                Some(k) => match decrypt_data(raw.as_slice(), k, &inode.encryption_nonce) {
                    Ok(p) => p,
                    Err(_) => return Err(DiskManagerError::DecryptionFailed),
                },
            }
        } else {
            raw
        };
        // Decompress if this is a compressed file
        if inode.mode == FileType::File && inode.compressed_size > 0 {
            match decompress(payload.as_slice()) {
                Some(d) => Ok(d),
                None => Err(DiskManagerError::Io(FsFault::Compression)),
            }
        } else {
            Ok(payload)
        }
    }

    /// Writes `buf` into the blocks of `blocks` from file offset `offset`.
    fn write_chunks_exec(&mut self, blocks: &mut [u64; 12], buf: &[u8], offset: u64) -> (r: Result<u64, DiskManagerError>)
        ensures
            ({
                let (img, bs, rc) = write_chunks(old(self)@.image, old(self)@.sb, *old(blocks), buf@, 0, offset as int);
                &&& final(self)@.image == img
                &&& *final(blocks) == bs
                &&& match rc {
                    Ok(end) => r == Ok::<u64, DiskManagerError>(end as u64) && end == offset + buf@.len() && end <= u64::MAX,
                    Err(e) => r == Err::<u64, DiskManagerError>(e),
                }
            }),
            final(self)@.sb == old(self)@.sb,
            final(self)@.key == old(self)@.key,
    {
        let _n = self.image.len();
        let len = buf.len();
        let mut written: usize = 0;
        let mut current_offset: u64 = offset;
        while written < len
            invariant
                len == buf@.len(),
                written <= len,
                current_offset == offset + written,
                self@.sb == old(self)@.sb,
                self@.key == old(self)@.key,
                self@.image.len() == old(self)@.image.len(),
                _n == self@.image.len(),
                write_chunks(old(self)@.image, old(self)@.sb, *old(blocks), buf@, 0, offset as int)
                    == write_chunks(self@.image, self@.sb, *blocks, buf@, written as int, current_offset as int),
            decreases len - written,
        {
            let blk_idx = current_offset / BLOCK_SIZE as u64;
            if blk_idx >= 12 {
                return Err(DiskManagerError::Io(FsFault::FileTooLarge));
            }
            let idx = blk_idx as usize;
            let mut blk_id = blocks[idx];
            if blk_id == 0 {
                let ghost before = *blocks;
                blk_id = self.allocate_from(self.superblock.data_bitmap_block, self.superblock.data_block_start)?;
                blocks[idx] = blk_id;
                assert(*blocks =~= spec_array_update(before, idx as int, blk_id));
            }
            let in_blk_off = (current_offset % BLOCK_SIZE as u64) as usize;
            let room = BLOCK_SIZE - in_blk_off;
            let to_write = if len - written <= room { len - written } else { room };
            proof {
                lemma_block_index(blk_id as int, _n as int);
            }
            if blk_id < (_n / BLOCK_SIZE) as u64 {
                let start = blk_id as usize * BLOCK_SIZE + in_blk_off;
                self.write_range(start, &buf[written..written + to_write]);
            }
            written = written + to_write;
            current_offset = current_offset + to_write as u64;
        }
        Ok(current_offset)
    }

    /// Writes data to a file, with `now` as the modification time and `nonce`
    /// for an encrypted file system.
    pub fn write_data_at(
        &mut self,
        inode_id: u64,
        file_offset: u64,
        data: &[u8],
        compression_mode: CompressionMode,
        now: u64,
        nonce: [u8; 24],
    ) -> (r: Result<(), DiskManagerError>)
        ensures
            (final(self)@.image, r) == write_spec(old(self)@, inode_id, file_offset, data@, compression_mode, now, nonce),
            r is Ok ==> write_facts(old(self)@, inode_id, file_offset, data@, compression_mode, nonce),
            final(self)@.sb == old(self)@.sb,
            final(self)@.key == old(self)@.key,
    {
        let mut inode = self.read_inode_internal(inode_id)?;
        let encrypting = self.key.is_some() && inode.mode == FileType::File;
        if encrypting && file_offset != 0 {
            return Err(DiskManagerError::Io(FsFault::EncryptedAppend));
        }
        // Determine if we should compress based on mode
        let should = match compression_mode {
            CompressionMode::Always => true,
            CompressionMode::Never => false,
            CompressionMode::Auto => data.len() >= 8192,
        };
        let attempt = inode.mode == FileType::File && file_offset == 0 && should;
        let mut is_compressed = false;
        let payload: Vec<u8> = if attempt {
            let compressed = match compress(data) {
                Some(c) => c,
                None => return Err(DiskManagerError::Io(FsFault::Compression)),
            };
            match compression_mode {
                CompressionMode::Always => {
                    is_compressed = true;
                    compressed
                },
                _ => {
                    if compressed.len() < data.len() {
                        is_compressed = true;
                        compressed
                    } else {
                        let mut v: Vec<u8> = Vec::new();
                        v.extend_from_slice(data);
                        assert(v@ =~= data@);
                        v
                    }
                },
            }
        } else {
            if file_offset != 0 && inode.mode == FileType::File && inode.compressed_size > 0 {
                return Err(DiskManagerError::Io(FsFault::CompressedAppend));
            }
            let mut v: Vec<u8> = Vec::new();
            v.extend_from_slice(data);
            assert(v@ =~= data@);
            v
        };
        let payload_len = payload.len();
        let ghost spec_attempt = compression_attempted(inode, file_offset, data@, compression_mode);
        assert(attempt == spec_attempt);
        assert(is_compressed == (spec_attempt && (compression_mode == CompressionMode::Always || zstd_frame(data@).len() < data@.len())));
        assert(payload@ == if is_compressed { zstd_frame(data@) } else { data@ });
        let buf: Vec<u8> = if encrypting {
            match &self.key {
                Some(k) => match encrypt_data(payload.as_slice(), k, &nonce) {
                    Ok(c) => c,
                    Err(e) => return Err(DiskManagerError::Encryption(e)),
                },
                None => payload,
            }
        } else {
            payload
        };
        assert(buf@ == if encrypting { xchacha_sealed(self@.key->0, nonce@, payload@) } else { payload@ });
        let mut blocks = inode.blocks;
        let end = match self.write_chunks_exec(&mut blocks, buf.as_slice(), file_offset) {
            Ok(e) => e,
            Err(e) => return Err(e),
        };
        let ghost i0 = inode;
        let ghost img1 = self@.image;
        inode.blocks = blocks;
        if encrypting {
            inode.size = data.len() as u64;
            inode.compressed_size = if is_compressed { payload_len as u64 } else { 0 };
            inode.encrypted = true;
            inode.encryption_nonce = nonce;
        } else if is_compressed {
            inode.size = data.len() as u64;
            inode.compressed_size = buf.len() as u64;
        } else {
            if inode.size < end {
                inode.size = end;
            }
            inode.compressed_size = 0;
        }
        inode.modified_at = now;
        proof {
            let (si, sb1, rc) = write_chunks(old(self)@.image, old(self)@.sb, i0.blocks, buf@, 0, file_offset as int);
            assert(si == img1);
            assert(sb1 == blocks);
            assert(rc == Ok::<int, DiskManagerError>(end as int));
            if encrypting {
                assert(inode == Inode { size: data@.len() as u64, compressed_size: if is_compressed { payload@.len() as u64 } else { 0 }, modified_at: now, blocks: sb1, encrypted: true, encryption_nonce: nonce, ..i0 });
            } else if is_compressed {
                assert(inode == Inode { size: data@.len() as u64, compressed_size: buf@.len() as u64, modified_at: now, blocks: sb1, ..i0 });
            }
            if !encrypting && !is_compressed {
                assert(inode == Inode { size: if i0.size >= end { i0.size } else { end as u64 }, compressed_size: 0, modified_at: now, blocks: sb1, ..i0 });
            }
        }
        let r = self.write_inode_internal(inode_id, &inode);
        proof {
            let (simg, sr) = write_spec(old(self)@, inode_id, file_offset, data@, compression_mode, now, nonce);
            assert(sr == r);
            assert(simg == self@.image);
        }
        r
    }

    /// Writes data to a file
    ///
    /// # Compression Strategy
    /// - `Always`: Always compress regardless of size
    /// - `Never`: Never compress
    /// - `Auto`: Compress files >= 8KB if beneficial
    ///
    /// # Limitations
    /// - Maximum file size: 48KB (12 blocks x 4KB)
    /// - Cannot append (offset > 0) to an already-compressed file
    pub fn write_data(&mut self, inode_id: u64, file_offset: u64, data: &[u8], compression_mode: CompressionMode) -> (r: Result<(), DiskManagerError>)
        ensures
            (exists|now: u64, nonce: [u8; 24]|
                (final(self)@.image, r) == #[trigger] write_spec(old(self)@, inode_id, file_offset, data@, compression_mode, now, nonce)
                && (r is Ok ==> write_facts(old(self)@, inode_id, file_offset, data@, compression_mode, nonce)))
                || (random_failed(old(self)@, r) && final(self)@ == old(self)@),
            final(self)@.sb == old(self)@.sb,
            final(self)@.key == old(self)@.key,
    {
        let now = unix_now();
        let nonce = if self.key.is_some() {
            match generate_nonce() {
                Ok(n) => n,
                Err(e) => return Err(DiskManagerError::Encryption(e)),
            }
        } else {
            [0u8; 24]
        };
        self.write_data_at(inode_id, file_offset, data, compression_mode, now, nonce)
    }

    /// Frees every nonzero block of `blocks` in the data bitmap.
    fn free_blocks(&mut self, blocks: &[u64; 12]) -> (r: Result<(), DiskManagerError>)
        ensures
            match free_all(old(self)@.image, old(self)@.sb.data_bitmap_block as int, old(self)@.sb.data_block_start, blocks@) {
                Some(img) => r == Ok::<(), DiskManagerError>(()) && final(self)@ == (FsView { image: img, ..old(self)@ }),
                None => r == Err::<(), DiskManagerError>(DiskManagerError::Io(FsFault::Layout)) && final(self)@ == old(self)@,
            },
    {
        let bb = self.superblock.data_bitmap_block;
        let start = self.superblock.data_block_start;
        let mut k: usize = 0;
        assert(blocks@.subrange(0, 12) =~= blocks@);
        while k < 12
            invariant
                k <= 12,
                bb == self@.sb.data_bitmap_block,
                start == self@.sb.data_block_start,
                self@.sb == old(self)@.sb,
                self@.key == old(self)@.key,
                self@.image.len() == old(self)@.image.len(),
                free_all(old(self)@.image, bb as int, start, blocks@) == free_all(self@.image, bb as int, start, blocks@.subrange(k as int, 12)),
                free_all(old(self)@.image, bb as int, start, blocks@) is None ==> self@ == old(self)@,
            decreases 12 - k,
        {
            let ghost rest = blocks@.subrange(k as int, 12);
            assert(rest.drop_first() =~= blocks@.subrange(k + 1, 12));
            assert(rest[0] == blocks@[k as int]);
            let blk = blocks[k];
            if blk != 0 {
                let ghost before = self@;
                let res = self.free_in(bb, start, blk);
                if res.is_err() {
                    proof {
                        lemma_free_at_fails(before.image, old(self)@.image, bb as int, start, blk);
                    }
                    return res;
                }
                proof {
                    lemma_free_at_fails_len(before.image, old(self)@.image, bb as int, start, blk);
                    lemma_free_all_some(old(self)@.image, bb as int, start, blocks@, blk);
                }
            }
            k = k + 1;
        }
        assert(blocks@.subrange(12, 12).len() == 0);
        Ok(())
    }

    /// Deletes the entry `name` of directory `parent_inode_id`, with `now` as the
    /// parent's modification time.
    pub fn delete_file_at(&mut self, parent_inode_id: u64, name: &str, now: u64) -> (r: Result<(), DiskManagerError>)
        ensures
            (final(self)@.image, r) == delete_spec(old(self)@, parent_inode_id, name@, now),
            final(self)@.sb == old(self)@.sb,
            final(self)@.key == old(self)@.key,
    {
        let parent_inode = self.read_inode_internal(parent_inode_id)?;
        if parent_inode.mode != FileType::Directory {
            return Err(DiskManagerError::Io(FsFault::NotDirectory));
        }
        let dir_block_id = parent_inode.blocks[0];
        if dir_block_id == 0 {
            return Err(DiskManagerError::Io(FsFault::NotFound));
        }
        let _n = self.image.len();
        let block = match self.get_block_copy(dir_block_id) {
            Some(b) => b,
            None => return Err(DiskManagerError::Io(FsFault::NotFound)),
        };
        // 1. Scan and filter
        let (entries, end) = read_entries(block.as_slice());
        if end.is_none() {
            return Err(DiskManagerError::Io(FsFault::Corrupt));
        }
        let wanted: String = name.to_owned();
        let mut target_inode: Option<u64> = None;
        let mut new_data: Vec<u8> = Vec::new();
        let mut fail: Option<DirectoryError> = None;
        let count = entries.len();
        let mut i: usize = 0;
        while i < count
            invariant
                count == entries@.len(),
                i <= count,
                wanted@ == name@,
                target_inode == last_match(entry_views(entries@).subrange(0, i as int), name@),
                fail is None ==> records_of(entries_without(entry_views(entries@).subrange(0, i as int), name@)) == Ok::<Seq<u8>, DirectoryError>(new_data@),
                fail matches Some(e) ==> records_of(entries_without(entry_views(entries@).subrange(0, i as int), name@)) == Err::<Seq<u8>, DirectoryError>(e),
            decreases count - i,
        {
            let ghost sub = entry_views(entries@).subrange(0, i + 1);
            assert(sub.drop_last() =~= entry_views(entries@).subrange(0, i as int));
            assert(sub.last() == entries@[i as int]@);
            let entry = &entries[i];
            let ghost prev_kept = entries_without(entry_views(entries@).subrange(0, i as int), name@);
            proof {
                if sub.last().name != name@ {
                    assert(entries_without(sub, name@) == prev_kept.push(sub.last()));
                    assert(prev_kept.push(sub.last()).drop_last() =~= prev_kept);
                    assert(prev_kept.push(sub.last()).last() == sub.last());
                }
            }
            if entry.name == wanted {
                target_inode = Some(entry.inode);
            } else if fail.is_none() {
                let ghost before = new_data@;
                match entry.serialize_into(&mut new_data) {
                    Ok(()) => {},
                    Err(e) => {
                        fail = Some(e);
                    },
                }
            }
            i = i + 1;
        }
        assert(entry_views(entries@).subrange(0, count as int) =~= entry_views(entries@));
        let target_inode_id = match target_inode {
            Some(t) => t,
            None => return Err(DiskManagerError::Io(FsFault::NotFound)),
        };
        if let Some(e) = fail {
            return Err(DiskManagerError::Io(FsFault::BadName(e)));
        }
        // 2. Rewrite Directory Block
        if new_data.len() > BLOCK_SIZE {
            return Err(DiskManagerError::Io(FsFault::DirectoryFull));
        }
        let ghost kept = new_data@;
        while new_data.len() < BLOCK_SIZE
            invariant
                new_data@.len() <= BLOCK_SIZE,
                kept.len() <= new_data@.len(),
                new_data@.subrange(0, kept.len() as int) == kept,
                forall|k: int| kept.len() <= k < new_data@.len() ==> new_data@[k] == 0u8,
            decreases BLOCK_SIZE - new_data@.len(),
        {
            new_data.push(0u8);
            assert(new_data@.subrange(0, kept.len() as int) =~= kept);
        }
        assert(new_data@ =~= kept + Seq::new((4096 - kept.len()) as nat, |k: int| 0u8));
        self.write_range(dir_block_id as usize * BLOCK_SIZE, new_data.as_slice());
        // 3. Free Inode & Blocks
        let file_inode = self.read_inode_internal(target_inode_id)?;
        self.free_blocks(&file_inode.blocks)?;
        self.free_in(self.superblock.inode_bitmap_block, 0, target_inode_id)?;
        // Update Parent Mtime
        let mut parent_inode = parent_inode;
        parent_inode.modified_at = now;
        self.write_inode_internal(parent_inode_id, &parent_inode)?;
        Ok(())
    }

    /// Deletes the file `name` from directory `parent_inode_id`.
    pub fn delete_file(&mut self, parent_inode_id: u64, name: &str) -> (r: Result<(), DiskManagerError>)
        ensures
            exists|now: u64| (final(self)@.image, r) == delete_spec(old(self)@, parent_inode_id, name@, now),
            final(self)@.sb == old(self)@.sb,
            final(self)@.key == old(self)@.key,
    {
        let now = unix_now();
        self.delete_file_at(parent_inode_id, name, now)
    }

    /// Analyzes disk fragmentation over the data bitmap.
    pub fn analyze_fragmentation(&self) -> (r: Result<FragmentationCounts, DiskManagerError>)
        ensures
            r == fragmentation_spec(self@),
    {
        let bitmap_data = match self.get_block_copy(self.superblock.data_bitmap_block) {
            Some(b) => b,
            None => return Err(DiskManagerError::Io(FsFault::Layout)),
        };
        let bitmap = Bitmap::new(bitmap_data);
        if self.superblock.block_count < self.superblock.data_block_start {
            return Err(DiskManagerError::Io(FsFault::Layout));
        }
        let span = self.superblock.block_count - self.superblock.data_block_start;
        if span > usize::MAX as u64 {
            return Err(DiskManagerError::Io(FsFault::Layout));
        }
        let total_blocks = span as usize;
        let ghost bits = bitmap@;
        let mut used_blocks: usize = 0;
        let mut free_runs: usize = 0;
        let mut current_run_len: usize = 0;
        let mut largest_free_run: usize = 0;
        let mut total_gap_size: usize = 0;
        let mut in_free_run = false;
        let mut i: usize = 0;
        while i < total_blocks
            invariant
                i <= total_blocks,
                bits == bitmap@,
                used_blocks == used_count(bits, i as int),
                free_runs == run_starts(bits, i as int),
                in_free_run == (i > 0 && !bit_is_set(bits, i - 1)),
                current_run_len == trailing_free(bits, i as int),
                (if largest_free_run >= current_run_len {
                    largest_free_run as int
                } else {
                    current_run_len as int
                }) == longest_run(bits, i as int),
                largest_free_run <= i,
                total_gap_size + current_run_len == i - used_count(bits, i as int),
            decreases total_blocks - i,
        {
            proof {
                lemma_counts_bounded(bits, i as int);
                lemma_counts_bounded(bits, i + 1);
            }
            let is_free = !bitmap.get(i);
            if is_free {
                if !in_free_run {
                    free_runs += 1;
                    in_free_run = true;
                    current_run_len = 1;
                } else {
                    current_run_len += 1;
                }
            } else {
                used_blocks += 1;
                if in_free_run {
                    total_gap_size += current_run_len;
                    if current_run_len > largest_free_run {
                        largest_free_run = current_run_len;
                    }
                    in_free_run = false;
                    current_run_len = 0;
                }
            }
            i = i + 1;
        }
        // Handle final free run if exists
        if in_free_run {
            total_gap_size += current_run_len;
            if current_run_len > largest_free_run {
                largest_free_run = current_run_len;
            }
        }
        proof {
            lemma_counts_bounded(bits, total_blocks as int);
        }
        Ok(FragmentationCounts {
            total_blocks,
            used_blocks,
            free_blocks: total_blocks - used_blocks,
            free_runs,
            largest_free_run,
            total_gap_size,
        })
    }

    /// What the rewrite pass carries, in id order: see `relayout_plan`.
    fn collect_live_files(&self) -> (r: Result<Vec<(u64, Inode, Vec<u8>)>, DiskManagerError>)
        ensures
            match relayout_plan(self@) {
                Ok(items) => r matches Ok(v) && file_views(v@) == items,
                Err(e) => r matches Err(x) && x == e,
            },
    {
        let used = match self.get_block_copy(self.superblock.inode_bitmap_block) {
            Some(u) => u,
            None => return Err(DiskManagerError::Io(FsFault::Layout)),
        };
        let n = self.superblock.inode_count;
        let mut items: Vec<(u64, Inode, Vec<u8>)> = Vec::new();
        let mut id: u64 = 0;
        assert(file_views(items@) =~= Seq::<(u64, Inode, Seq<u8>)>::empty());
        while id < n
            invariant
                id <= n,
                n == self@.sb.inode_count,
                block_of(self@.image, self@.sb.inode_bitmap_block as int) == Some(used@),
                live_files(self@, used@, id as nat) == Ok::<Seq<(u64, Inode, Seq<u8>)>, DiskManagerError>(
                    file_views(items@),
                ),
            decreases n - id,
        {
            let byte_index = id / 8;
            let bit = (id % 8) as u8;
            let marked = if byte_index < used.len() as u64 {
                (used[byte_index as usize] & (1u8 << bit)) != 0
            } else {
                false
            };
            assert(marked == bit_is_set(used@, id as int));
            if marked {
                match self.read_inode_internal(id) {
                    Ok(inode) => {
                        if inode.mode == FileType::File && inode.size > 0 {
                            match self.read_data(id) {
                                Ok(data) => {
                                    proof {
                                        assert(file_views(items@.push((id, inode, data))) =~= file_views(
                                            items@,
                                        ).push((id, inode, data@)));
                                    }
                                    items.push((id, inode, data));
                                },
                                Err(e) => {
                                    proof {
                                        lemma_live_files_err(self@, used@, (id + 1) as nat, n as nat, e);
                                    }
                                    return Err(e);
                                },
                            }
                        } else if inode.mode == FileType::Directory && inode.blocks[0] != 0 {
                            match self.get_block_copy(inode.blocks[0]) {
                                Some(bytes) => {
                                    proof {
                                        assert(file_views(items@.push((id, inode, bytes))) =~= file_views(
                                            items@,
                                        ).push((id, inode, bytes@)));
                                    }
                                    items.push((id, inode, bytes));
                                },
                                None => {},
                            }
                        }
                    },
                    Err(_) => {},
                }
            }
            id = id + 1;
        }
        Ok(items)
    }

    /// Lays out one carried inode again: see `relay_step`.
    fn relay_one(&mut self, id: u64, inode: &Inode, data: &[u8]) -> (r: Result<(), DiskManagerError>)
        ensures
            relay_step(old(self)@, id, *inode, data@, final(self)@.image, r),
            final(self)@.sb == old(self)@.sb,
            final(self)@.key == old(self)@.key,
    {
        if inode.mode == FileType::Directory {
            let b = self.allocate_from(self.superblock.data_bitmap_block, self.superblock.data_block_start)?;
            let n = self.image.len();
            proof {
                lemma_block_index(b as int, n as int);
            }
            if b < (n / BLOCK_SIZE) as u64 && data.len() == BLOCK_SIZE {
                self.write_range(b as usize * BLOCK_SIZE, data);
            }
            let mut moved = *inode;
            let mut bl = [0u64; 12];
            bl[0] = b;
            moved.blocks = bl;
            proof {
                assert(moved.blocks =~= first_block_only(b));
                assert(moved.encryption_nonce =~= inode.encryption_nonce);
                assert(moved == Inode { blocks: first_block_only(b), ..*inode });
            }
            self.write_inode_internal(id, &moved)
        } else {
            let mut cleared = *inode;
            cleared.blocks = [0u64; 12];
            proof {
                assert(cleared.blocks =~= no_blocks());
                assert(cleared == Inode { blocks: no_blocks(), ..*inode });
            }
            match self.write_inode_internal(id, &cleared) {
                Ok(()) => {},
                Err(e) => return Err(e),
            }
            let mode = if inode.compressed_size > 0 {
                CompressionMode::Always
            } else {
                CompressionMode::Never
            };
            write_whole(self, id, data, mode)
        }
    }

    /// Lays out the file system's contents afresh: the pass that
    /// defragmentation runs on a copy of the image.
    ///
    /// The inodes that the inode bitmap marks are read first, in id order:
    /// each file with a nonzero size with its contents, and each directory
    /// with the bytes of its block. Then the data bitmap block is zeroed, and
    /// each of them, in the same order, takes the first free data blocks: a
    /// directory's bytes move to a new block, and a file, its block pointers
    /// cleared, is written back whole from offset 0, compressed again when it
    /// was compressed. A failed read leaves the image unchanged; a failed step
    /// stops the pass. When the pass goes through, the blocks in use form one
    /// run from the start of the data area and each carried inode's blocks
    /// follow one another (`defrag_props::lemma_relayout_packs`), and each
    /// carried inode keeps its mode, size, contents and lookups
    /// (`defrag_props::lemma_relayout_keeps`).
    pub fn relayout(&mut self) -> (r: Result<RelayoutCounts, DiskManagerError>)
        ensures
            final(self)@.sb == old(self)@.sb,
            final(self)@.key == old(self)@.key,
            match relayout_plan(old(self)@) {
                Err(e) => r matches Err(x) && x == e && final(self)@ == old(self)@,
                Ok(items) => {
                    &&& rewrites(
                        old(self)@.sb,
                        old(self)@.key,
                        clear_block(old(self)@.image, old(self)@.sb.data_bitmap_block as int),
                        items,
                        0,
                        final(self)@.image,
                        match r {
                            Ok(_) => Ok::<(), DiskManagerError>(()),
                            Err(e) => Err(e),
                        },
                    )
                    &&& (r matches Ok(c) ==> c.files_processed == files_counted(items, items.len() as int)
                        && c.bytes_moved == min_int(bytes_counted(items, items.len() as int), u64::MAX as int))
                },
            },
    {
        let items = self.collect_live_files()?;
        let ghost all = file_views(items@);
        // Clear the data bitmap so that everything is laid out afresh
        self.zero_block(self.superblock.data_bitmap_block);
        let ghost img0 = self@.image;
        let mut files_processed: usize = 0;
        let mut bytes_moved: u64 = 0;
        let mut k: usize = 0;
        while k < items.len()
            invariant
                k <= items@.len(),
                all == file_views(items@),
                img0 == clear_block(old(self)@.image, old(self)@.sb.data_bitmap_block as int),
                relayout_plan(old(self)@) == Ok::<Seq<(u64, Inode, Seq<u8>)>, DiskManagerError>(all),
                self@.sb == old(self)@.sb,
                self@.key == old(self)@.key,
                files_processed == files_counted(all, k as int),
                files_processed <= k,
                bytes_moved == min_int(bytes_counted(all, k as int), u64::MAX as int),
                forall|e: Seq<u8>, rr: Result<(), DiskManagerError>|
                    rewrites(self@.sb, self@.key, self@.image, all, k as int, e, rr) ==> rewrites(
                        self@.sb,
                        self@.key,
                        img0,
                        all,
                        0,
                        e,
                        rr,
                    ),
            decreases items@.len() - k,
        {
            let id = items[k].0;
            let ghost before = self@;
            assert(items[k as int].2@ == all[k as int].2);
            let w = self.relay_one(id, &items[k].1, items[k].2.as_slice());
            proof {
                assert(before == FsView { image: before.image, sb: before.sb, key: before.key });
                assert forall|e: Seq<u8>, rr: Result<(), DiskManagerError>|
                    w is Ok && rewrites(before.sb, before.key, self@.image, all, k + 1, e, rr) implies rewrites(
                        before.sb,
                        before.key,
                        before.image,
                        all,
                        k as int,
                        e,
                        rr,
                    ) by {
                    assert(relay_step(before, all[k as int].0, all[k as int].1, all[k as int].2, self@.image, w));
                }
                if w is Err {
                    assert(relay_step(before, all[k as int].0, all[k as int].1, all[k as int].2, self@.image, w));
                    assert(rewrites(before.sb, before.key, before.image, all, k as int, self@.image, w));
                }
            }
            match w {
                Ok(_) => {},
                Err(e) => {
                    proof {
                        assert(rewrites(before.sb, before.key, img0, all, 0, self@.image, w));
                    }
                    return Err(e);
                },
            }
            if items[k].1.mode == FileType::File {
                files_processed = files_processed + 1;
                bytes_moved = bytes_moved.saturating_add(items[k].2.len() as u64);
            }
            k = k + 1;
        }
        assert(rewrites(self@.sb, self@.key, img0, all, 0, self@.image, Ok::<(), DiskManagerError>(())));
        Ok(RelayoutCounts { files_processed, bytes_moved })
    }

    /// Writes an inode to the inode table; a slot past the image's end is
    /// refused as out of bounds.
    pub fn write_inode(&mut self, inode_id: u64, inode: &Inode) -> (r: Result<(), DiskManagerError>)
        ensures
            match write_inode_at(old(self)@.image, old(self)@.sb, inode_id as int, *inode) {
                Some(img) => r == Ok::<(), DiskManagerError>(()) && final(self)@ == (FsView { image: img, ..old(self)@ }),
                None => r == Err::<(), DiskManagerError>(DiskManagerError::Io(FsFault::OutOfBounds))
                    && final(self)@ == old(self)@,
            },
    {
        match self.write_inode_internal(inode_id, inode) {
            Ok(()) => Ok(()),
            Err(_) => Err(DiskManagerError::Io(FsFault::OutOfBounds)),
        }
    }

    /// Reads an inode from the inode table
    pub fn read_inode(&self, inode_id: u64) -> (r: Result<Inode, DiskManagerError>)
        ensures
            r == read_inode_at(self@.image, self@.sb, inode_id as int),
    {
        self.read_inode_internal(inode_id)
    }

    /// Looks up `name` in directory `parent_inode_id`.
    pub fn lookup(&self, parent_inode_id: u64, name: &str) -> (r: Result<u64, DiskManagerError>)
        ensures
            r == dir_lookup(self@.image, self@.sb, parent_inode_id, name@),
    {
        let parent_inode = self.read_inode_internal(parent_inode_id)?;
        if parent_inode.mode != FileType::Directory {
            return Err(DiskManagerError::Io(FsFault::NotDirectory));
        }
        let dir_block_id = parent_inode.blocks[0];
        if dir_block_id == 0 {
            return Err(DiskManagerError::Io(FsFault::NotFound));
        }
        let block = match self.get_block_copy(dir_block_id) {
            Some(b) => b,
            None => return Err(DiskManagerError::Io(FsFault::NotFound)),
        };
        let (entries, end) = read_entries(block.as_slice());
        let wanted: String = name.to_owned();
        match find_entry(&entries, &wanted) {
            Some(id) => Ok(id),
            None => if end.is_none() {
                Err(DiskManagerError::Io(FsFault::Corrupt))
            } else {
                Err(DiskManagerError::Io(FsFault::NotFound))
            },
        }
    }

    /// The child named `part` of directory `cur`; unreadable records end the search.
    fn resolve_step_exec(&self, cur: u64, part: &String) -> (r: Result<u64, DiskManagerError>)
        ensures
            r == resolve_step(self@.image, self@.sb, cur, part@),
    {
        let parent = self.read_inode_internal(cur)?;
        if parent.mode != FileType::Directory {
            return Err(DiskManagerError::Io(FsFault::NotDirectory));
        }
        let blk = parent.blocks[0];
        if blk == 0 {
            return Err(DiskManagerError::Io(FsFault::NotFound));
        }
        let block = match self.get_block_copy(blk) {
            Some(b) => b,
            None => return Err(DiskManagerError::Io(FsFault::NotFound)),
        };
        let (entries, _end) = read_entries(block.as_slice());
        match find_entry(&entries, part) {
            Some(id) => Ok(id),
            None => Err(DiskManagerError::Io(FsFault::NotFound)),
        }
    }

    /// Resolves the steps one after the other from `start`.
    fn walk_exec(&self, start: u64, parts: &Vec<String>, from: usize) -> (r: Result<u64, DiskManagerError>)
        requires
            from <= parts@.len(),
        ensures
            r == walk(self@.image, self@.sb, start, string_views(parts@).subrange(from as int, parts@.len() as int)),
    {
        let n = parts.len();
        let mut curr = start;
        let mut i = from;
        while i < n
            invariant
                n == parts@.len(),
                from <= i <= n,
                walk(self@.image, self@.sb, start, string_views(parts@).subrange(from as int, n as int))
                    == walk(self@.image, self@.sb, curr, string_views(parts@).subrange(i as int, n as int)),
            decreases n - i,
        {
            let ghost rest = string_views(parts@).subrange(i as int, n as int);
            assert(rest[0] == parts@[i as int]@);
            assert(rest.drop_first() =~= string_views(parts@).subrange(i + 1, n as int));
            curr = self.resolve_step_exec(curr, &parts[i])?;
            i = i + 1;
        }
        assert(string_views(parts@).subrange(n as int, n as int) =~= Seq::<Seq<char>>::empty());
        Ok(curr)
    }

    /// Resolves a path from the root directory; empty pieces and "." are skipped.
    pub fn resolve_path(&self, path: &str) -> (r: Result<u64, DiskManagerError>)
        ensures
            r == walk(self@.image, self@.sb, self@.sb.root_inode, path_parts(path@)),
    {
        let parts = path_steps(path);
        assert(string_views(parts@).subrange(0, parts@.len() as int) =~= string_views(parts@));
        self.walk_exec(self.superblock.root_inode, &parts, 0)
    }

    /// Splits a path into the directory that holds its last step and that
    /// step's name; a path without steps is refused.
    pub fn resolve_parent(&self, path: &str) -> (r: Result<(u64, String), DiskManagerError>)
        ensures
            path_parts(path@).len() == 0 ==> r == Err::<(u64, String), DiskManagerError>(
                DiskManagerError::Io(FsFault::EmptyPath),
            ),
            path_parts(path@).len() > 0 ==> match walk(
                self@.image,
                self@.sb,
                self@.sb.root_inode,
                path_parts(path@).drop_last(),
            ) {
                Ok(p) => r matches Ok((id, name)) && id == p && name@ == path_parts(path@).last(),
                Err(e) => r == Err::<(u64, String), DiskManagerError>(e),
            },
    {
        let mut parts = path_steps(path);
        let n = parts.len();
        if n == 0 {
            return Err(DiskManagerError::Io(FsFault::EmptyPath));
        }
        let ghost all = string_views(parts@);
        let name = parts.pop().unwrap();
        assert(string_views(parts@) =~= all.drop_last());
        assert(string_views(parts@).subrange(0, parts@.len() as int) =~= string_views(parts@));
        let parent_id = self.walk_exec(self.superblock.root_inode, &parts, 0)?;
        Ok((parent_id, name))
    }

    /// Reads an inode from the inode table
    fn read_inode_internal(&self, inode_id: u64) -> (r: Result<Inode, DiskManagerError>)
        ensures
            r == read_inode_at(self@.image, self@.sb, inode_id as int),
    {
        let n = self.image.len() as u64;
        let table = match self.superblock.inode_table_block.checked_mul(BLOCK_SIZE as u64) {
            Some(t) => t,
            None => return Err(DiskManagerError::Io(FsFault::OutOfBounds)),
        };
        let rel = match inode_id.checked_mul(INODE_SLOT_SIZE) {
            Some(t) => t,
            None => return Err(DiskManagerError::Io(FsFault::OutOfBounds)),
        };
        let off = match table.checked_add(rel) {
            Some(t) => t,
            None => return Err(DiskManagerError::Io(FsFault::OutOfBounds)),
        };
        if off > n || n - off < INODE_SLOT_SIZE {
            return Err(DiskManagerError::Io(FsFault::OutOfBounds));
        }
        let o = off as usize;
        match Inode::from_bytes(&self.image[o..o + INODE_SLOT_SIZE as usize]) {
            Some(i) => Ok(i),
            None => Err(DiskManagerError::Serialization),
        }
    }

    /// Stores an inode in its slot of the inode table.
    fn write_inode_internal(&mut self, inode_id: u64, inode: &Inode) -> (r: Result<(), DiskManagerError>)
        ensures
            match write_inode_at(old(self)@.image, old(self)@.sb, inode_id as int, *inode) {
                Some(img) => r == Ok::<(), DiskManagerError>(()) && final(self)@ == (FsView { image: img, ..old(self)@ }),
                None => r == Err::<(), DiskManagerError>(DiskManagerError::Io(FsFault::Layout))
                    && final(self)@ == old(self)@,
            },
    {
        let n = self.image.len() as u64;
        let table = match self.superblock.inode_table_block.checked_mul(BLOCK_SIZE as u64) {
            Some(t) => t,
            None => return Err(DiskManagerError::Io(FsFault::Layout)),
        };
        let rel = match inode_id.checked_mul(INODE_SLOT_SIZE) {
            Some(t) => t,
            None => return Err(DiskManagerError::Io(FsFault::Layout)),
        };
        let off = match table.checked_add(rel) {
            Some(t) => t,
            None => return Err(DiskManagerError::Io(FsFault::Layout)),
        };
        if off > n || n - off < INODE_SLOT_SIZE {
            return Err(DiskManagerError::Io(FsFault::Layout));
        }
        let bytes = inode.to_bytes();
        proof {
            lemma_inode_record(*inode);
        }
        self.write_range(off as usize, bytes.as_slice());
        Ok(())
    }

    /// Allocates from the bitmap in block `bitmap_block`, whose bit 0 stands for `start`.
    fn allocate_from(&mut self, bitmap_block: u64, start: u64) -> (r: Result<u64, DiskManagerError>)
        ensures
            (final(self)@.image, r) == alloc_at(old(self)@.image, bitmap_block as int, start),
            final(self)@.sb == old(self)@.sb,
            final(self)@.key == old(self)@.key,
    {
        let _n = self.image.len();
        let bytes = match self.get_block_copy(bitmap_block) {
            Some(b) => b,
            None => return Err(DiskManagerError::Io(FsFault::Layout)),
        };
        assert(bytes@.len() == BLOCK_SIZE);
        assert(bit_capacity(bytes@) == 32768);
        if start > u64::MAX - 32767 {
            return Err(DiskManagerError::Io(FsFault::Layout));
        }
        let mut allocator = SimpleBlockAllocator::new(bytes, start);
        let res = allocator.allocate();
        let out = allocator.into_bitmap();
        proof {
            lemma_first_free_bit(bytes@);
        }
        assert(block_of(self@.image, bitmap_block as int) is Some);
        match res {
            Ok(id) => {
                assert(first_free_bit(bytes@) == Some(id - start));
                assert(out@ == with_bit_set(bytes@, id - start));
                self.write_range(bitmap_block as usize * BLOCK_SIZE, out.as_slice());
                Ok(id)
            },
            Err(e) => Err(DiskManagerError::Allocator(e)),
        }
    }

    /// Frees `id` in the bitmap in block `bitmap_block`, whose bit 0 stands for `start`.
    fn free_in(&mut self, bitmap_block: u64, start: u64, id: u64) -> (r: Result<(), DiskManagerError>)
        ensures
            match free_at(old(self)@.image, bitmap_block as int, start, id) {
                Some(img) => r == Ok::<(), DiskManagerError>(()) && final(self)@ == (FsView { image: img, ..old(self)@ }),
                None => r == Err::<(), DiskManagerError>(DiskManagerError::Io(FsFault::Layout))
                    && final(self)@ == old(self)@,
            },
    {
        let _n = self.image.len();
        let bytes = match self.get_block_copy(bitmap_block) {
            Some(b) => b,
            None => return Err(DiskManagerError::Io(FsFault::Layout)),
        };
        assert(bytes@.len() == BLOCK_SIZE);
        assert(bit_capacity(bytes@) == 32768);
        assert(block_of(self@.image, bitmap_block as int) is Some);
        if start > u64::MAX - 32767 {
            return Err(DiskManagerError::Io(FsFault::Layout));
        }
        let mut allocator = SimpleBlockAllocator::new(bytes, start);
        let _ = allocator.free(id);
        let out = allocator.into_bitmap();
        proof {
            if id >= start && id - start >= bit_capacity(bytes@) {
                assert(with_bit_cleared(bytes@, id - start) == bytes@);
            }
        }
        self.write_range(bitmap_block as usize * BLOCK_SIZE, out.as_slice());
        Ok(())
    }
}

/// Runs a whole write of `data` to file `id`, with what it ends in.
pub(crate) fn write_whole(dm: &mut DiskManager, id: u64, data: &[u8], mode: CompressionMode) -> (r: Result<(), DiskManagerError>)
    ensures
        write_step(old(dm)@, id, data@, mode, final(dm)@.image, r),
        final(dm)@.sb == old(dm)@.sb,
        final(dm)@.key == old(dm)@.key,
{
    let w = dm.write_data(id, 0, data, mode);
    proof {
        if exists|now: u64, nonce: [u8; 24]|
            (dm@.image, w) == #[trigger] write_spec(old(dm)@, id, 0, data@, mode, now, nonce)
            && (w is Ok ==> write_facts(old(dm)@, id, 0, data@, mode, nonce)) {
            let (now0, nonce0) = choose|now: u64, nonce: [u8; 24]|
                (dm@.image, w) == #[trigger] write_spec(old(dm)@, id, 0, data@, mode, now, nonce)
                && (w is Ok ==> write_facts(old(dm)@, id, 0, data@, mode, nonce));
            assert(write_spec(old(dm)@, id, 0, data@, mode, now0, nonce0) == (dm@.image, w));
            assert(w is Ok ==> write_facts(old(dm)@, id, 0, data@, mode, nonce0));
        }
    }
    w
}

} // verus!
