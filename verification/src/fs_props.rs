//! Properties that relate the file system's operations to one another.
use crate::directory::{
    listed_entries, serialized, storable_name, DirectoryError,
    read_entry_at, EntryRead, ENTRY_HEADER_LEN, MAX_FILENAME_LEN,
    entry_record, find_inode, lemma_entry_round_trip, lemma_find_inode_append, lemma_scan_append,
    lemma_scan_end_bound, scan_entries, EntryView,
};
use crate::bitmap::{bit_capacity, bit_is_set, first_free_bit, lemma_first_free_bit, lemma_set_bit, with_bit_set};
use crate::disk::{
    delete_spec, entries_without, free_all, free_at, records_of, stored_record,
    should_compress, stored_len, add_entry, alloc_at, block_of, create_spec, dir_lookup, gather, inode_slot,
    lemma_overwrite_len, min_int, new_entry_record, read_data_spec, read_inode_at, write_chunks,
    write_inode_at, write_spec, CompressionMode, DiskManagerError, FsFault, FsView,
    compression_attempted, write_facts, write_payload, format_spec, open_spec, create_encrypted_spec,
    fragmentation_spec, longest_run, run_starts, trailing_free, used_count,
    resolve_step, walk, path_parts, split_slash, keep_steps,
};
use crate::superblock::{lemma_superblock_round_trip, superblock_record, SuperBlock, SUPERBLOCK_RECORD_LEN};
use crate::compression::zstd_frame;
use crate::encryption::xchacha_sealed;
use crate::encoding::overwrite;
use crate::inode::{inode_record, lemma_inode_record, lemma_inode_round_trip, FileType, Inode};
use vstd::prelude::*;
use vstd::utf8::{decode_utf8, decode_utf8_encode_utf8, encode_utf8, valid_utf8};

verus! {

/// Whether the byte ranges `[a, a + la)` and `[b, b + lb)` do not overlap.
pub open spec fn apart(a: int, la: int, b: int, lb: int) -> bool {
    a + la <= b || b + lb <= a
}

/// The first block of directory `parent`, or -1 when its inode cannot be read.
pub open spec fn dir_block(s: FsView, parent: u64) -> int {
    match read_inode_at(s.image, s.sb, parent as int) {
        Ok(p) => p.blocks[0] as int,
        Err(_) => -1,
    }
}

/// A stored inode reads back as itself.
pub proof fn lemma_read_written_inode(img: Seq<u8>, sb: crate::superblock::SuperBlock, id: int, inode: Inode)
    requires
        write_inode_at(img, sb, id, inode) is Some,
        id >= 0,
    ensures
        read_inode_at(write_inode_at(img, sb, id, inode)->0, sb, id) == Ok::<Inode, DiskManagerError>(inode),
{
    let off = inode_slot(sb, id);
    lemma_inode_record(inode);
    let rec = inode_record(inode);
    let img2 = overwrite(img, off, rec);
    lemma_overwrite_len(img, off, rec);
    let slot = img2.subrange(off, off + 256);
    let rest = img.subrange(off + 157, off + 256);
    assert(slot =~= rec + rest);
    lemma_inode_round_trip(inode, rest);
}

/// Writing bytes apart from an inode's slot leaves that inode as it was.
pub proof fn lemma_inode_kept(img: Seq<u8>, sb: crate::superblock::SuperBlock, id: int, off: int, src: Seq<u8>)
    requires
        0 <= off,
        0 <= id,
        off + src.len() <= img.len(),
        apart(off, src.len() as int, inode_slot(sb, id), 256),
    ensures
        read_inode_at(overwrite(img, off, src), sb, id) == read_inode_at(img, sb, id),
{
    lemma_overwrite_len(img, off, src);
    let o = inode_slot(sb, id);
    if o + 256 <= img.len() && o >= 0 {
        assert(overwrite(img, off, src).subrange(o, o + 256) =~= img.subrange(o, o + 256));
    }
}

/// Writing bytes apart from a block leaves that block as it was.
pub proof fn lemma_block_kept(img: Seq<u8>, off: int, src: Seq<u8>, blk: int)
    requires
        0 <= off,
        off + src.len() <= img.len(),
        apart(off, src.len() as int, blk * 4096, 4096),
    ensures
        block_of(overwrite(img, off, src), blk) == block_of(img, blk),
{
    lemma_overwrite_len(img, off, src);
    if block_of(img, blk) is Some {
        assert(overwrite(img, off, src).subrange(blk * 4096, blk * 4096 + 4096) =~= img.subrange(
            blk * 4096,
            blk * 4096 + 4096,
        ));
    }
}

/// Creating a file and then looking up its name in the same directory finds
/// the new inode. This holds when the name is not empty, the directory's
/// block lies in the image apart from the inode bitmap and from the parent's
/// slot, and the new inode's slot lies apart from that block.
#[verifier::spinoff_prover]
#[verifier::rlimit(30)]
pub proof fn lemma_create_then_lookup(s: FsView, parent: u64, name: Seq<char>, now: u64)
    requires
        name.len() > 0,
        block_of(s.image, dir_block(s, parent)) is Some,
        dir_block(s, parent) != s.sb.inode_bitmap_block,
        apart(inode_slot(s.sb, parent as int), 256, dir_block(s, parent) * 4096, 4096),
    ensures
        create_spec(s, parent, name, FileType::File, now) matches (img, Ok(id)) ==> (apart(
            inode_slot(s.sb, id as int),
            256,
            dir_block(s, parent) * 4096,
            4096,
        ) ==> dir_lookup(img, s.sb, parent, name) == Ok::<u64, DiskManagerError>(id)),
{
    let img = s.image;
    let sb = s.sb;
    if create_spec(s, parent, name, FileType::File, now).1 is Ok {
        let p = read_inode_at(img, sb, parent as int)->Ok_0;
        assert(p.mode == FileType::Directory);
        assert(!(dir_lookup(img, sb, parent, name) is Ok));
        let blk = p.blocks[0];
        let bi = blk as int;
        let (img1, ra) = alloc_at(img, sb.inode_bitmap_block as int, 0);
        if let Ok(id) = ra {
            let ni = crate::disk::new_inode(FileType::File, now, 0);
            if write_inode_at(img1, sb, id as int, ni) is Some && blk != 0 && apart(inode_slot(sb, id as int), 256, bi * 4096, 4096) {
                let img3 = write_inode_at(img1, sb, id as int, ni)->0;
                let (img4, re) = add_entry(img3, blk, id, name, true);
                if re is Ok && write_inode_at(img4, sb, parent as int, Inode { modified_at: now, ..p }) is Some {
                    let img5 = write_inode_at(img4, sb, parent as int, Inode { modified_at: now, ..p })->0;
                    // The bitmap write keeps the directory block.
                    let bb = sb.inode_bitmap_block as int;
                    let bytes = block_of(img, bb)->0;
                    let first = crate::bitmap::first_free_bit(bytes)->0;
                    crate::bitmap::lemma_first_free_bit(bytes);
                    crate::bitmap::lemma_set_bit(bytes, first, 0);
                    lemma_block_kept(img, bb * 4096, crate::bitmap::with_bit_set(bytes, first), bi);
                    // The new inode's slot keeps it too.
                    lemma_inode_record(ni);
                    lemma_block_kept(img1, inode_slot(sb, id as int), inode_record(ni), bi);
                    let b3 = block_of(img3, bi)->0;
                    assert(b3 == block_of(img, bi)->0);
                    let sc = scan_entries(b3, 0);
                    assert(find_inode(sc.entries, name) is None);
                    let off = sc.end->0;
                    lemma_scan_end_bound(b3, 0);
                    // The record written where the list ended.
                    assert(encode_utf8(name).len() > 0);
                    let rec = entry_record(id, 0, name);
                    assert(new_entry_record(id, name) == Ok::<Seq<u8>, crate::directory::DirectoryError>(rec));
                    lemma_overwrite_len(img3, bi * 4096 + off, rec);
                    let b4 = block_of(img4, bi)->0;
                    assert(img4 == overwrite(img3, bi * 4096 + off, rec.subrange(0, rec.len() as int)));
                    assert(rec.subrange(0, rec.len() as int) =~= rec);
                    assert forall|k: int| 0 <= k < off implies b3[k] == b4[k] by {
                        assert(b3[k] == img3[bi * 4096 + k]);
                        assert(b4[k] == img4[bi * 4096 + k]);
                    }
                    assert(b4.subrange(off, off + rec.len()) =~= rec);
                    lemma_entry_round_trip(b4, off, id, 0, name);
                    let e = EntryView { inode: id, hash: 0, name };
                    lemma_scan_append(b3, b4, 0, off, e, off + rec.len());
                    // The parent's slot keeps the block, and the parent reads back.
                    lemma_inode_record(Inode { modified_at: now, ..p });
                    lemma_block_kept(img4, inode_slot(sb, parent as int), inode_record(Inode { modified_at: now, ..p }), bi);
                    lemma_read_written_inode(img4, sb, parent as int, Inode { modified_at: now, ..p });
                    lemma_find_inode_append(sc.entries, e, scan_entries(b4, off + rec.len()).entries, name);
                    assert(block_of(img5, bi) == Some(b4));
                }
            }
        }
    }
}

/// Bytes `[4096 j, 4096 j + 4096)` of `data`, cut at its end.
pub open spec fn chunk(data: Seq<u8>, j: int) -> Seq<u8> {
    data.subrange(4096 * j, min_int(4096 * j + 4096, data.len() as int))
}

/// The bitmap of data blocks.
pub open spec fn data_bitmap(img: Seq<u8>, sb: crate::superblock::SuperBlock) -> Seq<u8> {
    block_of(img, sb.data_bitmap_block as int)->0
}

/// The first `m` block pointers are distinct data blocks marked in use, and
/// the rest are 0.
pub open spec fn prefix_blocks(img: Seq<u8>, sb: crate::superblock::SuperBlock, bl: [u64; 12], m: int) -> bool {
    &&& 0 <= m <= 12
    &&& forall|j: int| 0 <= j < m ==> sb.data_block_start <= #[trigger] bl@[j]
    &&& forall|j: int, l: int| 0 <= j < l < m ==> bl@[j] != bl@[l]
    &&& forall|j: int| 0 <= j < m ==> bit_is_set(data_bitmap(img, sb), #[trigger] bl@[j] - sb.data_block_start)
    &&& forall|j: int| m <= j < 12 ==> #[trigger] bl@[j] == 0
}

/// The larger of two integers.
pub open spec fn max_int(a: int, b: int) -> int {
    if a >= b {
        a
    } else {
        b
    }
}

/// After `k` chunks of `data` were written from offset 0 into a file whose
/// first `m` blocks were given before: the blocks in use are a prefix as
/// `prefix_blocks` says, and the first `k` hold their chunks when the image
/// holds them.
pub open spec fn holds_chunks(
    img: Seq<u8>,
    sb: crate::superblock::SuperBlock,
    bl: [u64; 12],
    data: Seq<u8>,
    k: int,
    m: int,
) -> bool {
    &&& block_of(img, sb.data_bitmap_block as int) is Some
    &&& prefix_blocks(img, sb, bl, max_int(k, m))
    &&& forall|j: int|
        0 <= j < k && (#[trigger] block_of(img, bl@[j] as int)) is Some ==> block_of(img, bl@[j] as int)->0.subrange(
            0,
            chunk(data, j).len() as int,
        ) == chunk(data, j)
}

/// The layout that a write needs: the data bitmap lies before the data
/// blocks, which begin past block 0.
pub open spec fn data_area_apart(sb: crate::superblock::SuperBlock) -> bool {
    &&& 0 < sb.data_block_start
    &&& sb.data_bitmap_block < sb.data_block_start
}

#[verifier::spinoff_prover]
#[verifier::rlimit(40)]
proof fn lemma_chunks_step(img: Seq<u8>, sb: crate::superblock::SuperBlock, bl: [u64; 12], data: Seq<u8>, k: int, m: int)
    requires
        data_area_apart(sb),
        0 <= k,
        0 <= m <= 12,
        4096 * k < data.len() <= 12 * 4096,
        holds_chunks(img, sb, bl, data, k, m),
    ensures
        ({
            let (img2, bl2, r) = write_chunks(img, sb, bl, data, 4096 * k, 4096 * k);
            r is Ok ==> r == Ok::<int, DiskManagerError>(data.len() as int)
                && holds_chunks(img2, sb, bl2, data, ((data.len() + 4095) / 4096) as int, m)
                && img2.len() == img.len()
        }),
    decreases data.len() - 4096 * k,
{
    let dbb = sb.data_bitmap_block as int;
    let start = sb.data_block_start;
    let t = max_int(k, m);
    assert((4096 * k) / 4096 == k);
    assert((4096 * k) % 4096 == 0);
    assert(k < 12);
    let bytes = block_of(img, dbb)->0;
    let (img1, bl1, rb) = if bl@[k] == 0 {
        let (i1, r) = alloc_at(img, dbb, start);
        match r {
            Ok(b) => (i1, vstd::array::spec_array_update(bl, k, b), Ok::<u64, DiskManagerError>(b)),
            Err(e) => (i1, bl, Err(e)),
        }
    } else {
        (img, bl, Ok(bl@[k]))
    };
    if let Ok(b) = rb {
        // The state after the block for chunk `k` is settled.
        let bits1 = if bl@[k] == 0 {
            lemma_first_free_bit(bytes);
            let i = first_free_bit(bytes)->0;
            with_bit_set(bytes, i)
        } else {
            bytes
        };
        if bl@[k] == 0 {
            // Chunk `k` needs a new block: `k` is past the blocks given before.
            assert(k >= m);
            let i = first_free_bit(bytes)->0;
            assert(b == start + i);
            lemma_overwrite_len(img, dbb * 4096, bits1);
            assert(img1 == overwrite(img, dbb * 4096, bits1));
            assert(bl1@ == bl@.update(k, b));
            assert(block_of(img1, dbb) == Some(bits1)) by {
                assert(img1.subrange(dbb * 4096, dbb * 4096 + 4096) =~= bits1);
            }
            // The new block is none of the earlier ones: their bits were set.
            assert forall|j: int| 0 <= j < k implies bl@[j] != b by {
                if bl@[j] == b {
                    assert(bit_is_set(bytes, bl@[j] - start));
                }
            }
            assert forall|j: int| 0 <= j < k + 1 implies bit_is_set(bits1, #[trigger] bl1@[j] - start) by {
                lemma_set_bit(bytes, i, bl1@[j] - start);
            }
        } else {
            assert(k < m);
            assert(img1 == img);
            assert(bl1 == bl);
        }
        let t1 = max_int(k + 1, m);
        assert(prefix_blocks(img1, sb, bl1, t1));
        let n = min_int(data.len() - 4096 * k, 4096);
        let piece = data.subrange(4096 * k, 4096 * k + n);
        assert(chunk(data, k) == piece);
        let img2 = if block_of(img1, b as int) is Some {
            overwrite(img1, b * 4096, piece)
        } else {
            img1
        };
        if block_of(img1, b as int) is Some {
            lemma_overwrite_len(img1, b * 4096, piece);
        }
        assert(img1.len() == img.len());
        assert(img2.len() == img.len());
        assert(start <= b);
        // The bitmap block and the other blocks keep their bytes.
        assert(block_of(img2, dbb) == Some(bits1)) by {
            assert(img2.subrange(dbb * 4096, dbb * 4096 + 4096) =~= img1.subrange(dbb * 4096, dbb * 4096 + 4096));
        }
        assert(data_bitmap(img2, sb) == data_bitmap(img1, sb));
        assert(prefix_blocks(img2, sb, bl1, t1));
        assert forall|j: int| 0 <= j < k + 1 && (#[trigger] block_of(img2, bl1@[j] as int)) is Some implies block_of(img2, bl1@[j] as int)->0.subrange(
            0,
            chunk(data, j).len() as int,
        ) == chunk(data, j) by {
            let bj = bl1@[j] as int;
            if j < k {
                assert(bl1@[j] == bl@[j]);
                assert(bl@[j] != b);
                assert(block_of(img1, bj) == block_of(img, bj)) by {
                    if block_of(img, bj) is Some {
                        assert(img1.subrange(bj * 4096, bj * 4096 + 4096) =~= img.subrange(bj * 4096, bj * 4096 + 4096));
                    }
                }
                assert(block_of(img2, bj)->0 =~= block_of(img1, bj)->0);
            } else {
                assert(block_of(img2, bj)->0.subrange(0, n) =~= piece);
            }
        }
        assert(holds_chunks(img2, sb, bl1, data, k + 1, m));
        assert(write_chunks(img, sb, bl, data, 4096 * k, 4096 * k) == write_chunks(img2, sb, bl1, data, 4096 * k + n, 4096 * k + n));
        if 4096 * k + n < data.len() {
            assert(n == 4096);
            assert(4096 * k + n == 4096 * (k + 1));
            lemma_chunks_step(img2, sb, bl1, data, k + 1, m);
        } else {
            assert(((data.len() + 4095) / 4096) as int == k + 1);
        }
    }
}

/// The chunks of `data` sit at the start of the first `k` blocks of `bl`,
/// which are not 0.
pub open spec fn chunks_placed(img: Seq<u8>, bl: [u64; 12], data: Seq<u8>, k: int) -> bool {
    &&& forall|j: int| 0 <= j < k ==> #[trigger] bl@[j] != 0
    &&& forall|j: int|
        0 <= j < k && (#[trigger] block_of(img, bl@[j] as int)) is Some ==> block_of(img, bl@[j] as int)->0.subrange(
            0,
            chunk(data, j).len() as int,
        ) == chunk(data, j)
}

/// Data longer than 12 blocks cannot be written from offset 0.
pub(crate) proof fn lemma_chunks_too_long(img: Seq<u8>, sb: crate::superblock::SuperBlock, bl: [u64; 12], data: Seq<u8>, w: int)
    requires
        0 <= w <= 12 * 4096,
        data.len() > 12 * 4096,
    ensures
        write_chunks(img, sb, bl, data, w, w).2 is Err,
    decreases data.len() - w,
{
    if w < data.len() && w / 4096 < 12 {
        let idx = w / 4096;
        let (img1, bl1, rb) = if bl[idx] == 0 {
            let (i1, r) = alloc_at(img, sb.data_bitmap_block as int, sb.data_block_start);
            match r {
                Ok(b) => (i1, vstd::array::spec_array_update(bl, idx, b), Ok::<u64, DiskManagerError>(b)),
                Err(e) => (i1, bl, Err(e)),
            }
        } else {
            (img, bl, Ok(bl[idx]))
        };
        if let Ok(b) = rb {
            let n = min_int(data.len() - w, 4096 - w % 4096);
            let img2 = if block_of(img1, b as int) is Some {
                crate::encoding::overwrite(img1, b * 4096 + w % 4096, data.subrange(w, w + n))
            } else {
                img1
            };
            lemma_chunks_too_long(img2, sb, bl1, data, w + n);
        }
    }
}

proof fn lemma_gather_chunks(img: Seq<u8>, bl: [u64; 12], data: Seq<u8>, k: int)
    requires
        data.len() <= 12 * 4096,
        chunks_placed(img, bl, data, ((data.len() + 4095) / 4096) as int),
        forall|j: int| 0 <= j < 12 && bl@[j] != 0 ==> (#[trigger] block_of(img, bl@[j] as int)) is Some,
        0 <= k <= (data.len() + 4095) / 4096,
    ensures
        gather(img, bl@.subrange(k, 12), data.len() as int, data.subrange(0, min_int(4096 * k, data.len() as int))) == data,
    decreases 12 - k,
{
    let nk = ((data.len() + 4095) / 4096) as int;
    let got = data.subrange(0, min_int(4096 * k, data.len() as int));
    let blocks = bl@.subrange(k, 12);
    if k == nk {
        assert(got =~= data);
    } else {
        assert(4096 * k < data.len());
        assert(k < 12);
        assert(blocks[0] == bl@[k]);
        assert(bl@[k] != 0);
        let b = block_of(img, bl@[k] as int)->0;
        let n = min_int(data.len() - 4096 * k, 4096);
        assert(chunk(data, k).len() == n);
        assert(b.subrange(0, n) == chunk(data, k));
        assert(got + b.subrange(0, n) =~= data.subrange(0, min_int(4096 * (k + 1), data.len() as int)));
        assert(blocks.drop_first() =~= bl@.subrange(k + 1, 12));
        lemma_gather_chunks(img, bl, data, k + 1);
    }
}

/// Writing `buf` from offset 0 into a file whose blocks in use are a prefix,
/// when it goes through, ends at the end of `buf`, which fits in the 12
/// blocks, with the chunks of `buf` in the blocks.
proof fn lemma_prefix_end(img: Seq<u8>, sb: crate::superblock::SuperBlock, blocks: [u64; 12], buf: Seq<u8>, m: int)
    requires
        data_area_apart(sb),
        block_of(img, sb.data_bitmap_block as int) is Some,
        prefix_blocks(img, sb, blocks, m),
    ensures
        write_chunks(img, sb, blocks, buf, 0, 0).2 is Ok ==> {
            &&& write_chunks(img, sb, blocks, buf, 0, 0).2 == Ok::<int, DiskManagerError>(buf.len() as int)
            &&& buf.len() <= 12 * 4096
            &&& buf.len() > 0 ==> holds_chunks(
                write_chunks(img, sb, blocks, buf, 0, 0).0,
                sb,
                write_chunks(img, sb, blocks, buf, 0, 0).1,
                buf,
                ((buf.len() + 4095) / 4096) as int,
                m,
            )
            &&& write_chunks(img, sb, blocks, buf, 0, 0).0.len() == img.len()
        },
{
    let (img1, bl1, rc) = write_chunks(img, sb, blocks, buf, 0, 0);
    if buf.len() > 12 * 4096 {
        lemma_chunks_too_long(img, sb, blocks, buf, 0);
    }
    if rc is Ok && buf.len() <= 12 * 4096 && buf.len() > 0 {
        assert(max_int(0, m) == m);
        assert(holds_chunks(img, sb, blocks, buf, 0, m));
        assert(0int * 4096 == 0);
        lemma_chunks_step(img, sb, blocks, buf, 0, m);
    }
}

/// Writing `buf` from offset 0 into a file whose blocks in use are a prefix,
/// and storing an inode that points at the blocks and counts `buf.len()`
/// stored bytes: the inode reads back, and the stored bytes gathered from its
/// blocks are `buf` when the image holds those blocks.
proof fn lemma_prefix_gather(
    img: Seq<u8>,
    sb: crate::superblock::SuperBlock,
    id: int,
    blocks: [u64; 12],
    buf: Seq<u8>,
    i2: Inode,
    m: int,
)
    requires
        data_area_apart(sb),
        0 <= id,
        inode_slot(sb, id) + 256 <= sb.data_block_start * 4096,
        block_of(img, sb.data_bitmap_block as int) is Some,
        prefix_blocks(img, sb, blocks, m),
        write_chunks(img, sb, blocks, buf, 0, 0).2 is Ok,
        i2.blocks == write_chunks(img, sb, blocks, buf, 0, 0).1,
        stored_len(i2) == buf.len(),
        write_inode_at(write_chunks(img, sb, blocks, buf, 0, 0).0, sb, id, i2) is Some,
    ensures
        ({
            let img2 = write_inode_at(write_chunks(img, sb, blocks, buf, 0, 0).0, sb, id, i2)->0;
            &&& read_inode_at(img2, sb, id) == Ok::<Inode, DiskManagerError>(i2)
            &&& (forall|k: int| 0 <= k < 12 && i2.blocks@[k] != 0 ==> (#[trigger] block_of(img2, i2.blocks@[k] as int)) is Some)
                ==> gather(img2, i2.blocks@, stored_len(i2), Seq::empty()) == buf
        }),
{
    let (img1, bl1, rc) = write_chunks(img, sb, blocks, buf, 0, 0);
    let img2 = write_inode_at(img1, sb, id, i2)->0;
    lemma_read_written_inode(img1, sb, id, i2);
    if buf.len() == 0 {
        assert(gather(img2, bl1@, 0, Seq::empty()) =~= buf);
    } else {
        lemma_prefix_end(img, sb, blocks, buf, m);
        let nk = ((buf.len() + 4095) / 4096) as int;
        assert(holds_chunks(img1, sb, bl1, buf, nk, m));
        lemma_inode_record(i2);
        lemma_overwrite_len(img1, inode_slot(sb, id), inode_record(i2));
        // The inode's slot lies before every data block.
        assert forall|j: int| 0 <= j < 12 && bl1@[j] != 0 implies #[trigger] block_of(img2, bl1@[j] as int) == block_of(img1, bl1@[j] as int) by {
            if j < max_int(nk, m) {
                lemma_block_kept(img1, inode_slot(sb, id), inode_record(i2), bl1@[j] as int);
            }
        }
        if forall|k: int| 0 <= k < 12 && bl1@[k] != 0 ==> (#[trigger] block_of(img2, bl1@[k] as int)) is Some {
            assert forall|j: int| 0 <= j < nk implies #[trigger] bl1@[j] != 0 by {
                assert(sb.data_block_start <= bl1@[j]);
            }
            assert(chunks_placed(img2, bl1, buf, nk));
            lemma_gather_chunks(img2, bl1, buf, 0);
            assert(bl1@.subrange(0, 12) =~= bl1@);
            assert(buf.subrange(0, 0) =~= Seq::<u8>::empty());
        }
    }
}

/// Whether a write stores `data` as it is: no key, and the zstd frame is not kept.
pub open spec fn stores_plain(s: FsView, i: Inode, data: Seq<u8>, mode: CompressionMode) -> bool {
    s.key is None && write_payload(i, 0, data, mode) == data
}

/// Writing a file whole from offset 0 and then reading it gives the data
/// back, with or without compression and encryption, into a file that is
/// new or already holds data. This holds when the data area lies after the
/// data bitmap, which the image holds, and the inode's slot before the data
/// area; when the file's blocks in use are distinct data blocks marked in
/// use, before its unused pointers; when the write learnt what a successful
/// write learns from zstd and the cipher; when an encrypted file is written
/// with a key; when data stored as it is, is at least as long as the file;
/// and when every block the file then has lies in the image.
pub proof fn lemma_write_then_read(
    s: FsView,
    id: u64,
    data: Seq<u8>,
    mode: CompressionMode,
    now: u64,
    nonce: [u8; 24],
    m: int,
)
    requires
        data_area_apart(s.sb),
        block_of(s.image, s.sb.data_bitmap_block as int) is Some,
        inode_slot(s.sb, id as int) + 256 <= s.sb.data_block_start * 4096,
        read_inode_at(s.image, s.sb, id as int) matches Ok(i) && {
            &&& i.mode == FileType::File
            &&& prefix_blocks(s.image, s.sb, i.blocks, m)
            &&& i.encrypted ==> s.key is Some
            &&& stores_plain(s, i, data, mode) ==> data.len() >= i.size
        },
        write_facts(s, id, 0, data, mode, nonce),
    ensures
        write_spec(s, id, 0, data, mode, now, nonce) matches (img, Ok(_)) ==> (read_inode_at(img, s.sb, id as int) matches Ok(j)
            && (forall|k: int| 0 <= k < 12 && j.blocks@[k] != 0 ==> (#[trigger] block_of(img, j.blocks@[k] as int)) is Some)
            ==> read_data_spec(FsView { image: img, ..s }, id) == Ok::<Seq<u8>, DiskManagerError>(data)),
{
    let sb = s.sb;
    let i = read_inode_at(s.image, sb, id as int)->Ok_0;
    let (img_w, rw) = write_spec(s, id, 0, data, mode, now, nonce);
    if rw is Ok {
        let encrypting = s.key is Some;
        let frame = zstd_frame(data);
        let attempt = should_compress(mode, data.len() as int);
        assert(attempt == compression_attempted(i, 0, data, mode));
        let is_c = attempt && (mode == CompressionMode::Always || frame.len() < data.len());
        let payload = write_payload(i, 0, data, mode);
        assert(payload == if is_c { frame } else { data });
        let buf = if encrypting {
            xchacha_sealed(s.key->0, nonce@, payload)
        } else {
            payload
        };
        let (img1, bl1, rc) = write_chunks(s.image, sb, i.blocks, buf, 0, 0);
        lemma_prefix_end(s.image, sb, i.blocks, buf, m);
        let end = rc->Ok_0;
        assert(end == buf.len());
        let i2 = if encrypting {
            Inode {
                size: data.len() as u64,
                compressed_size: if is_c { payload.len() as u64 } else { 0 },
                modified_at: now,
                blocks: bl1,
                encrypted: true,
                encryption_nonce: nonce,
                ..i
            }
        } else if is_c {
            Inode { size: data.len() as u64, compressed_size: buf.len() as u64, modified_at: now, blocks: bl1, ..i }
        } else {
            Inode { size: if i.size >= end { i.size } else { end as u64 }, compressed_size: 0, modified_at: now, blocks: bl1, ..i }
        };
        assert(write_inode_at(img1, sb, id as int, i2) is Some);
        assert(img_w == write_inode_at(img1, sb, id as int, i2)->0);
        if !encrypting && !is_c {
            assert(stores_plain(s, i, data, mode));
        }
        assert(stored_len(i2) == buf.len());
        lemma_prefix_gather(s.image, sb, id as int, i.blocks, buf, i2, m);
        if forall|k: int| 0 <= k < 12 && i2.blocks@[k] != 0 ==> (#[trigger] block_of(img_w, i2.blocks@[k] as int)) is Some {
            assert(gather(img_w, i2.blocks@, stored_len(i2), Seq::empty()) == buf);
            assert(read_data_spec(FsView { image: img_w, ..s }, id) == Ok::<Seq<u8>, DiskManagerError>(data));
        }
    }
}

/// Every entry that a scan reads has a name whose UTF-8 form is not empty.
proof fn lemma_scan_names(b: Seq<u8>, pos: int)
    requires
        0 <= pos <= b.len(),
    ensures
        forall|k: int| 0 <= k < scan_entries(b, pos).entries.len() ==> encode_utf8(
            #[trigger] scan_entries(b, pos).entries[k].name,
        ).len() > 0,
    decreases b.len() - pos,
{
    match read_entry_at(b, pos) {
        EntryRead::Entry { entry, next } => {
            if pos < next <= b.len() {
                lemma_scan_names(b, next);
                let start = pos + ENTRY_HEADER_LEN;
                let nb = b.subrange(start, next);
                assert(nb =~= b.subrange(start, start + crate::encoding::u16_at(b, pos + 16) as int));
                decode_utf8_encode_utf8(nb);
                let es = scan_entries(b, pos).entries;
                assert forall|k: int| 0 <= k < es.len() implies encode_utf8(#[trigger] es[k].name).len() > 0 by {
                    if k > 0 {
                        assert(es[k] == scan_entries(b, next).entries[k - 1]);
                    }
                }
            }
        },
        _ => {},
    }
}

/// The records of a list, taken from the front.
proof fn lemma_records_front(es: Seq<EntryView>)
    requires
        es.len() > 0,
        records_of(es) is Ok,
    ensures
        stored_record(es[0]) is Ok,
        records_of(es.drop_first()) is Ok,
        records_of(es)->Ok_0 == stored_record(es[0])->Ok_0 + records_of(es.drop_first())->Ok_0,
    decreases es.len(),
{
    if es.len() == 1 {
        assert(es.drop_last() =~= Seq::<EntryView>::empty());
        assert(es.drop_first() =~= Seq::<EntryView>::empty());
        assert(Seq::<u8>::empty() + stored_record(es[0])->Ok_0 =~= stored_record(es[0])->Ok_0);
        assert(stored_record(es[0])->Ok_0 + Seq::<u8>::empty() =~= stored_record(es[0])->Ok_0);
    } else {
        let init = es.drop_last();
        lemma_records_front(init);
        assert(init.drop_first() =~= es.drop_first().drop_last());
        assert(es.drop_first().last() == es.last());
        assert(init[0] == es[0]);
        let a = stored_record(es[0])->Ok_0;
        let b = records_of(init.drop_first())->Ok_0;
        let c = stored_record(es.last())->Ok_0;
        assert(a + b + c =~= a + (b + c));
    }
}

/// Records written one after the other, followed by bytes that end the list,
/// read back as the entries.
proof fn lemma_scan_records(data: Seq<u8>, pos: int, es: Seq<EntryView>)
    requires
        0 <= pos,
        records_of(es) is Ok,
        pos + records_of(es)->Ok_0.len() <= data.len(),
        data.subrange(pos, pos + records_of(es)->Ok_0.len()) == records_of(es)->Ok_0,
        forall|k: int| 0 <= k < es.len() ==> encode_utf8(#[trigger] es[k].name).len() > 0,
        read_entry_at(data, pos + records_of(es)->Ok_0.len()) is End,
    ensures
        scan_entries(data, pos).entries == es,
        scan_entries(data, pos).end == Some(pos + records_of(es)->Ok_0.len()),
    decreases es.len(),
{
    if es.len() == 0 {
        assert(records_of(es)->Ok_0.len() == 0);
    } else {
        lemma_records_front(es);
        let e = es[0];
        let r = stored_record(e)->Ok_0;
        let rest = records_of(es.drop_first())->Ok_0;
        assert(r == entry_record(e.inode, e.hash, e.name));
        assert(data.subrange(pos, pos + r.len()) =~= records_of(es)->Ok_0.subrange(0, r.len() as int));
        assert(records_of(es)->Ok_0.subrange(0, r.len() as int) =~= r);
        lemma_entry_round_trip(data, pos, e.inode, e.hash, e.name);
        assert(EntryView { inode: e.inode, hash: e.hash, name: e.name } == e);
        assert(data.subrange(pos + r.len(), pos + r.len() + rest.len()) =~= records_of(es)->Ok_0.subrange(r.len() as int, (r.len() + rest.len()) as int));
        assert(records_of(es)->Ok_0.subrange(r.len() as int, (r.len() + rest.len()) as int) =~= rest);
        assert forall|k: int| 0 <= k < es.drop_first().len() implies encode_utf8(#[trigger] es.drop_first()[k].name).len() > 0 by {
            assert(es.drop_first()[k] == es[k + 1]);
        }
        lemma_scan_records(data, pos + r.len(), es.drop_first());
        assert(seq![e] + es.drop_first() =~= es);
    }
}

/// Freeing ids in one bitmap leaves every other block as it was.
proof fn lemma_free_all_keeps(img: Seq<u8>, bb: int, start: u64, ids: Seq<u64>, blk: int)
    requires
        free_all(img, bb, start, ids) is Some,
        blk != bb,
    ensures
        block_of(free_all(img, bb, start, ids)->0, blk) == block_of(img, blk),
        free_all(img, bb, start, ids)->0.len() == img.len(),
    decreases ids.len(),
{
    if ids.len() > 0 {
        if ids[0] == 0 {
            lemma_free_all_keeps(img, bb, start, ids.drop_first(), blk);
        } else {
            let bytes = block_of(img, bb)->0;
            let nb = if ids[0] >= start { crate::bitmap::with_bit_cleared(bytes, ids[0] - start) } else { bytes };
            lemma_overwrite_len(img, bb * 4096, nb);
            lemma_block_kept(img, bb * 4096, nb, blk);
            lemma_free_all_keeps(free_at(img, bb, start, ids[0])->0, bb, start, ids.drop_first(), blk);
        }
    }
}

/// Freeing an id in one bitmap leaves every other block as it was.
proof fn lemma_free_at_keeps(img: Seq<u8>, bb: int, start: u64, id: u64, blk: int)
    requires
        free_at(img, bb, start, id) is Some,
        blk != bb,
    ensures
        block_of(free_at(img, bb, start, id)->0, blk) == block_of(img, blk),
        free_at(img, bb, start, id)->0.len() == img.len(),
{
    let bytes = block_of(img, bb)->0;
    let nb = if id >= start { crate::bitmap::with_bit_cleared(bytes, id - start) } else { bytes };
    lemma_overwrite_len(img, bb * 4096, nb);
    lemma_block_kept(img, bb * 4096, nb, blk);
}

/// No entry of the list without a name has that name.
proof fn lemma_without_has_none(es: Seq<EntryView>, name: Seq<char>)
    ensures
        find_inode(entries_without(es, name), name) is None,
        forall|k: int| 0 <= k < entries_without(es, name).len() ==> exists|m: int| 0 <= m < es.len() && #[trigger] entries_without(es, name)[k] == es[m],
    decreases es.len(),
{
    if es.len() > 0 {
        lemma_without_has_none(es.drop_last(), name);
        let w = entries_without(es.drop_last(), name);
        if es.last().name != name {
            lemma_find_none_push(w, es.last(), name);
            assert forall|k: int| 0 <= k < entries_without(es, name).len() implies exists|m: int| 0 <= m < es.len() && #[trigger] entries_without(es, name)[k] == es[m] by {
                if k < w.len() {
                    let m = choose|m: int| 0 <= m < es.drop_last().len() && w[k] == es.drop_last()[m];
                    assert(es.drop_last()[m] == es[m]);
                } else {
                    assert(entries_without(es, name)[k] == es[es.len() - 1]);
                }
            }
        } else {
            assert forall|k: int| 0 <= k < entries_without(es, name).len() implies exists|m: int| 0 <= m < es.len() && #[trigger] entries_without(es, name)[k] == es[m] by {
                let m = choose|m: int| 0 <= m < es.drop_last().len() && w[k] == es.drop_last()[m];
                assert(es.drop_last()[m] == es[m]);
            }
        }
    }
}

proof fn lemma_find_none_push(w: Seq<EntryView>, e: EntryView, name: Seq<char>)
    requires
        find_inode(w, name) is None,
        e.name != name,
    ensures
        find_inode(w.push(e), name) is None,
    decreases w.len(),
{
    if w.len() == 0 {
        assert(w.push(e)[0] == e);
        assert(w.push(e).drop_first() =~= Seq::<EntryView>::empty());
        assert(find_inode(Seq::<EntryView>::empty(), name) is None);
        assert(find_inode(w.push(e).drop_first(), name) is None);
    } else {
        assert(w.push(e)[0] == w[0]);
        assert(w.push(e).drop_first() =~= w.drop_first().push(e));
        lemma_find_none_push(w.drop_first(), e, name);
        assert(w[0].name != name);
        assert(find_inode(w.push(e).drop_first(), name) is None);
    }
}

/// Looking a name up in a list with one more entry at its end: what the list
/// finds, else that entry when it has the name.
proof fn lemma_find_push(w: Seq<EntryView>, e: EntryView, m: Seq<char>)
    ensures
        find_inode(w.push(e), m) == (if find_inode(w, m) is Some {
            find_inode(w, m)
        } else if e.name == m {
            Some(e.inode)
        } else {
            None
        }),
    decreases w.len(),
{
    if w.len() == 0 {
        assert(w.push(e).drop_first() =~= Seq::<EntryView>::empty());
        assert(w.push(e)[0] == e);
        assert(find_inode(w.push(e).drop_first(), m) is None);
        assert(find_inode(w, m) is None);
    } else {
        assert(w.push(e)[0] == w[0]);
        assert(w.push(e).drop_first() =~= w.drop_first().push(e));
        lemma_find_push(w.drop_first(), e, m);
    }
}

/// Leaving out the entries named `name` changes no lookup of another name.
proof fn lemma_find_without(es: Seq<EntryView>, name: Seq<char>, m: Seq<char>)
    requires
        m != name,
    ensures
        find_inode(entries_without(es, name), m) == find_inode(es, m),
    decreases es.len(),
{
    if es.len() > 0 {
        let init = es.drop_last();
        let l = es.last();
        lemma_find_without(init, name, m);
        assert(init.push(l) =~= es);
        lemma_find_push(init, l, m);
        if l.name != name {
            lemma_find_push(entries_without(init, name), l, m);
        }
    }
}

/// Deleting a name from a directory and then looking the name up there finds
/// nothing, and every other name is found as before (the entry it finds, or
/// none): only the entries with that name leave the directory. This holds
/// when the directory's block lies apart from both bitmaps and from the
/// parent's slot.
pub proof fn lemma_delete_then_lookup(s: FsView, parent: u64, name: Seq<char>, now: u64)
    requires
        dir_block(s, parent) != s.sb.inode_bitmap_block,
        dir_block(s, parent) != s.sb.data_bitmap_block,
        apart(inode_slot(s.sb, parent as int), 256, dir_block(s, parent) * 4096, 4096),
    ensures
        delete_spec(s, parent, name, now) matches (img, Ok(_)) ==> dir_lookup(img, s.sb, parent, name)
            == Err::<u64, DiskManagerError>(DiskManagerError::Io(FsFault::NotFound)),
        delete_spec(s, parent, name, now) matches (img, Ok(_)) ==> forall|m: Seq<char>|
            m != name ==> #[trigger] dir_lookup(img, s.sb, parent, m) == dir_lookup(s.image, s.sb, parent, m),
{
    let img = s.image;
    let sb = s.sb;
    if let Ok(p) = read_inode_at(img, sb, parent as int) {
        let blk = p.blocks[0];
        let bi = blk as int;
        if p.mode == FileType::Directory && blk != 0 && block_of(img, bi) is Some {
            let b = block_of(img, bi)->0;
            let sc = scan_entries(b, 0);
            let kept = entries_without(sc.entries, name);
            if sc.end is Some && records_of(kept) is Ok && records_of(kept)->Ok_0.len() <= 4096 {
                let bytes = records_of(kept)->Ok_0;
                let pad = Seq::new((4096 - bytes.len()) as nat, |k: int| 0u8);
                let nb = bytes + pad;
                let img1 = overwrite(img, bi * 4096, nb);
                lemma_overwrite_len(img, bi * 4096, nb);
                assert(block_of(img1, bi) == Some(nb)) by {
                    assert(img1.subrange(bi * 4096, bi * 4096 + 4096) =~= nb);
                }
                // The new block reads back as the kept entries.
                lemma_scan_names(b, 0);
                lemma_without_has_none(sc.entries, name);
                assert forall|k: int| 0 <= k < kept.len() implies encode_utf8(#[trigger] kept[k].name).len() > 0 by {
                    let m = choose|m: int| 0 <= m < sc.entries.len() && kept[k] == sc.entries[m];
                }
                assert(nb.subrange(0, bytes.len() as int) =~= bytes);
                let at = bytes.len() as int;
                if at + 18 <= 4096 {
                    assert(nb.subrange(at + 16, at + 18) =~= seq![0u8, 0u8]);
                    assert(nb[at + 16] == 0 && nb[at + 17] == 0);
                    assert((0u8 as u16) | ((0u8 as u16) << 8) == 0u16) by (bit_vector);
                }
                lemma_scan_records(nb, 0, kept);
                if let Some(target) = crate::disk::last_match(sc.entries, name) {
                    if let Ok(fi) = read_inode_at(img1, sb, target as int) {
                        let dbb = sb.data_bitmap_block as int;
                        if let Some(img2) = free_all(img1, dbb, sb.data_block_start, fi.blocks@) {
                            lemma_free_all_keeps(img1, dbb, sb.data_block_start, fi.blocks@, bi);
                            if let Some(img3) = free_at(img2, sb.inode_bitmap_block as int, 0, target) {
                                lemma_free_at_keeps(img2, sb.inode_bitmap_block as int, 0, target, bi);
                                let np = Inode { modified_at: now, ..p };
                                if write_inode_at(img3, sb, parent as int, np) is Some {
                                    let img4 = write_inode_at(img3, sb, parent as int, np)->0;
                                    lemma_inode_record(np);
                                    lemma_block_kept(img3, inode_slot(sb, parent as int), inode_record(np), bi);
                                    lemma_read_written_inode(img3, sb, parent as int, np);
                                    assert(block_of(img4, bi) == Some(nb));
                                    assert(dir_lookup(img4, sb, parent, name) == Err::<u64, DiskManagerError>(DiskManagerError::Io(FsFault::NotFound)));
                                    assert forall|m: Seq<char>| m != name implies #[trigger] dir_lookup(img4, sb, parent, m)
                                        == dir_lookup(img, sb, parent, m) by {
                                        lemma_find_without(sc.entries, name, m);
                                    }
                                }
                            }
                        }
                    }
                }
            }
        }
    }
}

/// An image whose first bytes hold the record of `sb` reads back `sb` as its
/// superblock.
proof fn lemma_superblock_prefix(img: Seq<u8>, sb: SuperBlock)
    requires
        img.len() >= 4096,
        img.subrange(0, SUPERBLOCK_RECORD_LEN as int) == superblock_record(sb),
    ensures
        crate::superblock::superblock_from_record(img.subrange(0, 4096)) == Some(sb),
{
    let n = SUPERBLOCK_RECORD_LEN as int;
    let rest = img.subrange(n, 4096);
    lemma_superblock_round_trip(sb, rest);
    assert(img.subrange(0, 4096) =~= img.subrange(0, n) + rest);
}

/// Writing bytes past the first block keeps the first block's bytes.
proof fn lemma_first_block_kept(img: Seq<u8>, off: int, src: Seq<u8>)
    requires
        4096 <= off,
        off + src.len() <= img.len(),
    ensures
        overwrite(img, off, src).subrange(0, 4096) == img.subrange(0, 4096),
        overwrite(img, off, src).len() == img.len(),
{
    lemma_overwrite_len(img, off, src);
    assert(overwrite(img, off, src).subrange(0, 4096) =~= img.subrange(0, 4096));
}

/// A freshly formatted file system, opened from its image without a
/// password, is the same file system.
pub proof fn lemma_format_then_open(total_size: u64)
    ensures
        format_spec(total_size) matches Ok(v) ==> open_spec(v.image, None) == Ok::<FsView, DiskManagerError>(v),
{
    if let Ok(v) = format_spec(total_size) {
        let sb = crate::superblock::fresh_superblock(total_size / 4096);
        let zeros = Seq::new(total_size as nat, |k: int| 0u8);
        let rec = superblock_record(sb);
        lemma_superblock_round_trip(sb, Seq::empty());
        let img0 = overwrite(zeros, 0, rec);
        lemma_overwrite_len(zeros, 0, rec);
        let (img1, r1) = alloc_at(img0, 1, 0);
        let root_id = r1->Ok_0;
        let bytes1 = block_of(img0, 1)->0;
        lemma_first_block_kept(img0, 4096, with_bit_set(bytes1, first_free_bit(bytes1)->0));
        let (img2, r2) = alloc_at(img1, 2, 1027);
        let bytes2 = block_of(img1, 2)->0;
        lemma_first_block_kept(img1, 8192, with_bit_set(bytes2, first_free_bit(bytes2)->0));
        let d = r2->Ok_0;
        let inode = crate::disk::new_inode(FileType::Directory, 0, d);
        lemma_inode_record(inode);
        lemma_first_block_kept(img2, 12288int, inode_record(inode));
        assert(v.image == overwrite(img2, 12288int, inode_record(inode)));
        assert(img0.subrange(0, SUPERBLOCK_RECORD_LEN as int) =~= rec);
        assert(v.image.subrange(0, SUPERBLOCK_RECORD_LEN as int) =~= v.image.subrange(0, 4096).subrange(0, SUPERBLOCK_RECORD_LEN as int));
        assert(img0.subrange(0, SUPERBLOCK_RECORD_LEN as int) =~= img0.subrange(0, 4096).subrange(0, SUPERBLOCK_RECORD_LEN as int));
        lemma_superblock_prefix(v.image, sb);
    }
}

/// A new encrypted file system, opened from its image with the same
/// password, is the same file system with the same key.
pub proof fn lemma_create_encrypted_then_open(total_size: u64, password: Seq<u8>, salt: [u8; 16])
    ensures
        create_encrypted_spec(total_size, password, salt) matches Ok(v) ==> open_spec(v.image, Some(password))
            == Ok::<FsView, DiskManagerError>(v),
{
    if let Ok(v) = create_encrypted_spec(total_size, password, salt) {
        let f = format_spec(total_size)->Ok_0;
        lemma_format_then_open(total_size);
        let sb = v.sb;
        let rec = superblock_record(sb);
        lemma_superblock_round_trip(sb, Seq::empty());
        lemma_overwrite_len(f.image, 0, rec);
        assert(v.image.subrange(0, SUPERBLOCK_RECORD_LEN as int) =~= rec);
        lemma_superblock_prefix(v.image, sb);
    }
}

/// Over the first `n` bits, the free bits outnumber neither the runs of free
/// bits nor the longest of them, and a run begins exactly when a bit is free.
proof fn lemma_runs_within_free(bits: Seq<u8>, n: int)
    requires
        n >= 0,
    ensures
        0 <= used_count(bits, n) <= n,
        0 <= run_starts(bits, n) <= n - used_count(bits, n),
        0 <= trailing_free(bits, n) <= n - used_count(bits, n),
        0 <= longest_run(bits, n) <= n - used_count(bits, n),
        (n - used_count(bits, n) > 0) == (run_starts(bits, n) > 0),
    decreases n,
{
    if n > 0 {
        lemma_runs_within_free(bits, n - 1);
        if n - 1 > 0 && used_count(bits, n - 1) == n - 1 {
            lemma_runs_within_free(bits, n - 2);
        }
    }
}

/// The counts of a fragmentation analysis fit together: used and free blocks
/// make up the total, the free runs and the largest of them are no more than
/// the free blocks, the gaps add up to the free blocks, and there is a free
/// run exactly when there is a free block. So the average gap and the
/// fragmentation ratio that follow from them lie between 0 and the free
/// space, and between 0 and 1.
pub proof fn lemma_fragmentation_counts(s: FsView)
    ensures
        fragmentation_spec(s) matches Ok(c) ==> {
            &&& c.used_blocks + c.free_blocks == c.total_blocks
            &&& c.free_runs <= c.free_blocks
            &&& c.largest_free_run <= c.free_blocks
            &&& c.total_gap_size == c.free_blocks
            &&& (c.free_blocks > 0 <==> c.free_runs > 0)
        },
{
    if let Ok(c) = fragmentation_spec(s) {
        let bits = block_of(s.image, s.sb.data_bitmap_block as int)->0;
        let n = s.sb.block_count - s.sb.data_block_start;
        lemma_runs_within_free(bits, n);
    }
}

/// The indices below `n` where `f` holds.
pub open spec fn indices_where(n: int, f: spec_fn(int) -> bool) -> Set<int> {
    Set::new(|i: int| 0 <= i < n && f(i))
}

/// Whether bit `i` marks a block in use.
pub open spec fn block_used(bits: Seq<u8>) -> spec_fn(int) -> bool {
    |i: int| bit_is_set(bits, i)
}

/// Whether a run of free blocks begins at bit `i`: it is clear, and it is the
/// first bit or follows a set one.
pub open spec fn run_begins(bits: Seq<u8>) -> spec_fn(int) -> bool {
    |i: int| !bit_is_set(bits, i) && (i == 0 || bit_is_set(bits, i - 1))
}

/// The indices below `n + 1` where `f` holds are those below `n`, and `n`
/// when `f` holds there.
proof fn lemma_indices_step(n: int, f: spec_fn(int) -> bool)
    requires
        n >= 0,
    ensures
        indices_where(n, f).finite(),
        !indices_where(n, f).contains(n),
        indices_where(n + 1, f) == (if f(n) {
            indices_where(n, f).insert(n)
        } else {
            indices_where(n, f)
        }),
{
    vstd::set_lib::lemma_int_range(0, n);
    vstd::set_lib::lemma_len_subset(indices_where(n, f), vstd::set_lib::set_int_range(0, n));
    if f(n) {
        assert(indices_where(n + 1, f) =~= indices_where(n, f).insert(n));
    } else {
        assert(indices_where(n + 1, f) =~= indices_where(n, f));
    }
}

/// The count of blocks in use is the number of set bits.
proof fn lemma_used_is_count(bits: Seq<u8>, n: int)
    requires
        n >= 0,
    ensures
        indices_where(n, block_used(bits)).finite(),
        used_count(bits, n) == indices_where(n, block_used(bits)).len(),
    decreases n,
{
    if n == 0 {
        assert(indices_where(0, block_used(bits)) =~= Set::<int>::empty());
    } else {
        lemma_used_is_count(bits, n - 1);
        lemma_indices_step(n - 1, block_used(bits));
    }
}

/// The count of free runs is the number of bits where one begins.
proof fn lemma_starts_is_count(bits: Seq<u8>, n: int)
    requires
        n >= 0,
    ensures
        indices_where(n, run_begins(bits)).finite(),
        run_starts(bits, n) == indices_where(n, run_begins(bits)).len(),
    decreases n,
{
    if n == 0 {
        assert(indices_where(0, run_begins(bits)) =~= Set::<int>::empty());
    } else {
        lemma_starts_is_count(bits, n - 1);
        lemma_indices_step(n - 1, run_begins(bits));
    }
}

/// A fragmentation analysis counts, over the data area's bits, the blocks in
/// use (the set bits), the free blocks (the others), and the free runs (the
/// clear bits that are first or follow a set bit).
pub proof fn lemma_fragmentation_counted(s: FsView)
    ensures
        fragmentation_spec(s) matches Ok(c) ==> {
            let bits = block_of(s.image, s.sb.data_bitmap_block as int)->0;
            let n = s.sb.block_count - s.sb.data_block_start;
            &&& c.total_blocks == n
            &&& c.used_blocks == indices_where(n, block_used(bits)).len()
            &&& c.free_blocks == n - indices_where(n, block_used(bits)).len()
            &&& c.free_runs == indices_where(n, run_begins(bits)).len()
        },
{
    if let Ok(c) = fragmentation_spec(s) {
        let bits = block_of(s.image, s.sb.data_bitmap_block as int)->0;
        let n = s.sb.block_count - s.sb.data_block_start;
        crate::disk::lemma_counts_bounded(bits, n);
        lemma_used_is_count(bits, n);
        lemma_starts_is_count(bits, n);
    }
}

/// Whether bits `a..b` are all clear: a run of free blocks.
pub open spec fn free_range(bits: Seq<u8>, a: int, b: int) -> bool {
    forall|i: int| a <= i < b ==> !#[trigger] bit_is_set(bits, i)
}

/// A free run that ends at `b` is no longer than the clear bits just before `b`.
proof fn lemma_run_within_trailing(bits: Seq<u8>, a: int, b: int)
    requires
        0 <= a <= b,
        free_range(bits, a, b),
    ensures
        b - a <= trailing_free(bits, b),
    decreases b - a,
{
    if a < b {
        assert(!bit_is_set(bits, b - 1));
        assert(trailing_free(bits, b) == trailing_free(bits, b - 1) + 1);
        lemma_run_within_trailing(bits, a, b - 1);
    } else {
        crate::disk::lemma_counts_bounded(bits, b);
    }
}

/// The clear bits just before `i` are a free run.
proof fn lemma_trailing_is_free(bits: Seq<u8>, i: int)
    requires
        0 <= i,
    ensures
        0 <= trailing_free(bits, i) <= i,
        free_range(bits, i - trailing_free(bits, i), i),
    decreases i,
{
    if i > 0 && !bit_is_set(bits, i - 1) {
        lemma_trailing_is_free(bits, i - 1);
    }
}

/// The longest run among the first `n` bits bounds every run that ends by
/// `n`, and is the run that ends at some `e <= n`.
proof fn lemma_longest_bounds(bits: Seq<u8>, n: int) -> (e: int)
    requires
        0 <= n,
    ensures
        forall|i: int| 0 <= i <= n ==> #[trigger] trailing_free(bits, i) <= longest_run(bits, n),
        0 <= e <= n,
        trailing_free(bits, e) == longest_run(bits, n),
    decreases n,
{
    if n == 0 {
        0
    } else {
        let e0 = lemma_longest_bounds(bits, n - 1);
        if longest_run(bits, n - 1) >= trailing_free(bits, n) {
            e0
        } else {
            n
        }
    }
}

/// The largest free run that a fragmentation analysis reports is the length
/// of a run of free blocks in the data area, and no run of free blocks there
/// is longer.
pub proof fn lemma_largest_free_run(s: FsView)
    ensures
        fragmentation_spec(s) matches Ok(c) ==> {
            let bits = block_of(s.image, s.sb.data_bitmap_block as int)->0;
            let n = s.sb.block_count - s.sb.data_block_start;
            &&& forall|a: int, b: int| 0 <= a <= b <= n && free_range(bits, a, b) ==> b - a <= c.largest_free_run
            &&& exists|a: int| 0 <= a && a + c.largest_free_run <= n && #[trigger] free_range(bits, a, a + c.largest_free_run)
        },
{
    if let Ok(c) = fragmentation_spec(s) {
        let bits = block_of(s.image, s.sb.data_bitmap_block as int)->0;
        let n = s.sb.block_count - s.sb.data_block_start;
        let e = lemma_longest_bounds(bits, n);
        crate::disk::lemma_counts_bounded(bits, n);
        assert(c.largest_free_run == longest_run(bits, n));
        assert forall|a: int, b: int| 0 <= a <= b <= n && free_range(bits, a, b) implies b - a <= c.largest_free_run by {
            lemma_run_within_trailing(bits, a, b);
            assert(trailing_free(bits, b) <= longest_run(bits, n));
        }
        lemma_trailing_is_free(bits, e);
        let a = e - trailing_free(bits, e);
        assert(free_range(bits, a, a + c.largest_free_run));
    }
}

/// Whether writing `data` whole in `mode` keeps the zstd frame: always with
/// `Always`, never with `Never`, and with `Auto` for data of 8 KB or more
/// that the frame makes shorter.
pub open spec fn keeps_frame(mode: CompressionMode, data: Seq<u8>) -> bool {
    mode == CompressionMode::Always || (mode == CompressionMode::Auto && data.len() >= 8192 && zstd_frame(data).len()
        < data.len())
}

/// A whole write of `data` in `mode` that goes through leaves the inode
/// readable, with the mode it had; a file then has a nonzero compressed size
/// exactly when the write keeps the zstd frame.
pub proof fn lemma_whole_write_compression(
    s: FsView,
    id: u64,
    data: Seq<u8>,
    mode: CompressionMode,
    img_end: Seq<u8>,
)
    requires
        crate::disk::write_step(s, id, data, mode, img_end, Ok::<(), DiskManagerError>(())),
    ensures
        read_inode_at(img_end, s.sb, id as int) matches Ok(j) && read_inode_at(s.image, s.sb, id as int) matches Ok(i)
            && j.mode == i.mode && (j.mode == FileType::File ==> (j.compressed_size > 0 <==> keeps_frame(mode, data))),
{
    let (now, nonce) = choose|now: u64, nonce: [u8; 24]|
        (img_end, Ok::<(), DiskManagerError>(())) == #[trigger] write_spec(s, id, 0, data, mode, now, nonce)
            && (Ok::<(), DiskManagerError>(()) is Ok ==> write_facts(s, id, 0, data, mode, nonce));
    assert(write_spec(s, id, 0, data, mode, now, nonce) == (img_end, Ok::<(), DiskManagerError>(())));
    let i = read_inode_at(s.image, s.sb, id as int)->Ok_0;
    let encrypting = s.key is Some && i.mode == FileType::File;
    let attempt = compression_attempted(i, 0, data, mode);
    let frame = zstd_frame(data);
    let is_c = attempt && (mode == CompressionMode::Always || frame.len() < data.len());
    let payload = if is_c { frame } else { data };
    let buf = if encrypting { xchacha_sealed(s.key->0, nonce@, payload) } else { payload };
    let (img1, bl1, rc) = write_chunks(s.image, s.sb, i.blocks, buf, 0, 0);
    let end = rc->Ok_0;
    let i2 = if encrypting {
        Inode {
            size: data.len() as u64,
            compressed_size: if is_c { payload.len() as u64 } else { 0 },
            modified_at: now,
            blocks: bl1,
            encrypted: true,
            encryption_nonce: nonce,
            ..i
        }
    } else if is_c {
        Inode { size: data.len() as u64, compressed_size: buf.len() as u64, modified_at: now, blocks: bl1, ..i }
    } else {
        Inode { size: if i.size >= end { i.size } else { end as u64 }, compressed_size: 0, modified_at: now, blocks: bl1, ..i }
    };
    assert(write_inode_at(img1, s.sb, id as int, i2) == Some(img_end));
    lemma_read_written_inode(img1, s.sb, id as int, i2);
    if buf.len() > 12 * 4096 {
        lemma_chunks_too_long(s.image, s.sb, i.blocks, buf, 0);
    }
    if i.mode == FileType::File {
        assert(is_c == keeps_frame(mode, data));
        if is_c {
            assert(frame.len() > 0);
            if !encrypting {
                assert(buf == frame);
            }
        }
    }
}

/// A step of a path resolves as a lookup of the name in the directory does,
/// but for a directory with a record that cannot be read, which resolution
/// reports as a name not found.
pub open spec fn as_path_step(r: Result<u64, DiskManagerError>) -> Result<u64, DiskManagerError> {
    match r {
        Err(DiskManagerError::Io(FsFault::Corrupt)) => Err(DiskManagerError::Io(FsFault::NotFound)),
        other => other,
    }
}

/// Following the names of `parts` from directory `cur` by lookups, the first
/// failing lookup stopping the walk.
pub open spec fn lookup_chain(img: Seq<u8>, sb: SuperBlock, cur: u64, parts: Seq<Seq<char>>) -> Result<
    u64,
    DiskManagerError,
>
    decreases parts.len(),
{
    if parts.len() == 0 {
        Ok(cur)
    } else {
        match as_path_step(dir_lookup(img, sb, cur, parts[0])) {
            Err(e) => Err(e),
            Ok(next) => lookup_chain(img, sb, next, parts.drop_first()),
        }
    }
}

/// Resolving a step of a path is a lookup of the name, a directory with an
/// unreadable record answering "not found".
pub proof fn lemma_step_is_lookup(img: Seq<u8>, sb: SuperBlock, cur: u64, part: Seq<char>)
    ensures
        resolve_step(img, sb, cur, part) == as_path_step(dir_lookup(img, sb, cur, part)),
{
}

/// Resolving a path is a chain of lookups of its steps from the starting
/// directory, as `resolve_path` does from the root.
pub proof fn lemma_walk_is_lookup_chain(img: Seq<u8>, sb: SuperBlock, cur: u64, parts: Seq<Seq<char>>)
    ensures
        walk(img, sb, cur, parts) == lookup_chain(img, sb, cur, parts),
    decreases parts.len(),
{
    if parts.len() > 0 {
        lemma_step_is_lookup(img, sb, cur, parts[0]);
        if let Ok(next) = resolve_step(img, sb, cur, parts[0]) {
            lemma_walk_is_lookup_chain(img, sb, next, parts.drop_first());
        }
    }
}

/// The path "." has no steps, so it resolves to the root directory.
pub proof fn lemma_dot_is_root()
    ensures
        path_parts(seq!['.']).len() == 0,
{
    let s = seq!['.'];
    assert(s.drop_first() =~= Seq::<char>::empty());
    assert(split_slash(s.drop_first()) == seq![Seq::<char>::empty()]);
    assert(split_slash(s) =~= seq![seq!['.']]);
    let pieces = split_slash(s);
    assert(pieces.drop_last() =~= Seq::<Seq<char>>::empty());
    assert(!crate::disk::is_step(pieces.last()));
    assert(keep_steps(pieces.drop_last()).len() == 0);
    assert(keep_steps(pieces) == keep_steps(pieces.drop_last()));
}

/// A piece without '/' splits into itself alone.
proof fn lemma_split_single(n: Seq<char>)
    requires
        !n.contains('/'),
    ensures
        split_slash(n) == seq![n],
    decreases n.len(),
{
    if n.len() > 0 {
        let t = n.drop_first();
        assert forall|k: int| 0 <= k < t.len() implies t[k] != '/' by {
            assert(t[k] == n[k + 1]);
        }
        lemma_split_single(t);
        assert(n[0] != '/');
        assert(seq![n[0]] + t =~= n);
    } else {
        assert(n =~= Seq::<char>::empty());
    }
}

/// Splitting `p`, a '/', and `q` gives the pieces of `p` and then those of `q`.
proof fn lemma_split_concat(p: Seq<char>, q: Seq<char>)
    ensures
        split_slash(p + seq!['/'] + q) == split_slash(p) + split_slash(q),
    decreases p.len(),
{
    let whole = p + seq!['/'] + q;
    if p.len() == 0 {
        assert(whole.drop_first() =~= q);
        assert(whole[0] == '/');
    } else {
        let t = p.drop_first();
        lemma_split_concat(t, q);
        assert(whole.drop_first() =~= t + seq!['/'] + q);
        assert(whole[0] == p[0]);
        crate::disk::lemma_split_nonempty(t);
        if p[0] != '/' {
            let a = split_slash(t);
            let b = split_slash(q);
            assert((a + b).update(0, seq![p[0]] + (a + b)[0]) =~= a.update(0, seq![p[0]] + a[0]) + b);
        } else {
            assert(seq![Seq::<char>::empty()] + (split_slash(t) + split_slash(q)) =~= (seq![Seq::<char>::empty()]
                + split_slash(t)) + split_slash(q));
        }
    }
}

/// Keeping the steps of two lists of pieces one after the other.
proof fn lemma_keep_concat(a: Seq<Seq<char>>, b: Seq<Seq<char>>)
    ensures
        keep_steps(a + b) == keep_steps(a) + keep_steps(b),
    decreases b.len(),
{
    if b.len() == 0 {
        assert(a + b =~= a);
        assert(keep_steps(a) + keep_steps(b) =~= keep_steps(a));
    } else {
        lemma_keep_concat(a, b.drop_last());
        assert((a + b).drop_last() =~= a + b.drop_last());
        assert((a + b).last() == b.last());
        if crate::disk::is_step(b.last()) {
            assert(keep_steps(a) + keep_steps(b.drop_last()).push(b.last()) =~= (keep_steps(a) + keep_steps(
                b.drop_last(),
            )).push(b.last()));
        }
    }
}

/// A name that is not empty, holds no '/' and is not "." is a path of one
/// step, itself: resolving it from a directory is the lookup of that name.
/// The empty path and "." have no steps.
pub proof fn lemma_name_is_one_step(n: Seq<char>)
    requires
        n.len() > 0,
        !n.contains('/'),
        n != seq!['.'],
    ensures
        path_parts(n) == seq![n],
        path_parts(Seq::<char>::empty()).len() == 0,
        path_parts(seq!['.']).len() == 0,
{
    lemma_split_single(n);
    let one = seq![n];
    assert(one.drop_last() =~= Seq::<Seq<char>>::empty());
    assert(keep_steps(one) == keep_steps(one.drop_last()).push(n));
    assert(keep_steps(Seq::<Seq<char>>::empty()).push(n) =~= one);
    let e = Seq::<char>::empty();
    lemma_split_single(e);
    let ones = seq![e];
    assert(ones.drop_last() =~= Seq::<Seq<char>>::empty());
    assert(keep_steps(ones) == keep_steps(ones.drop_last()));
    lemma_dot_is_root();
}

/// The steps of `p`, a '/', and `q` are the steps of `p` and then those of
/// `q`: a path is split at every '/', whatever stands around it.
pub proof fn lemma_path_parts_concat(p: Seq<char>, q: Seq<char>)
    ensures
        path_parts(p + seq!['/'] + q) == path_parts(p) + path_parts(q),
{
    lemma_split_concat(p, q);
    lemma_keep_concat(split_slash(p), split_slash(q));
}

/// Where a scan of the records reaches the end of the list, the iterator's
/// walk yields the same entries.
proof fn lemma_listed_is_scan(data: Seq<u8>, pos: int)
    requires
        0 <= pos,
        scan_entries(data, pos).end is Some,
    ensures
        listed_entries(data, pos) == scan_entries(data, pos).entries,
    decreases data.len() - pos,
{
    if pos < data.len() {
        if let EntryRead::Entry { entry, next } = read_entry_at(data, pos) {
            lemma_listed_is_scan(data, next);
        }
    }
}

/// A block that holds the records of some entries one after the other,
/// followed by zeros, reads back as exactly those entries: a scan finds them
/// and the end of the list right after them, and walking it with a
/// `DirectoryIterator` yields them in order and then stops. The names are
/// not empty (an empty name would read as the end of the list).
pub proof fn lemma_records_then_zeros(es: Seq<EntryView>, z: Seq<u8>)
    requires
        records_of(es) is Ok,
        forall|k: int| 0 <= k < es.len() ==> encode_utf8(#[trigger] es[k].name).len() > 0,
        forall|k: int| 0 <= k < z.len() ==> #[trigger] z[k] == 0u8,
    ensures
        scan_entries(records_of(es)->Ok_0 + z, 0).entries == es,
        scan_entries(records_of(es)->Ok_0 + z, 0).end == Some(records_of(es)->Ok_0.len() as int),
        listed_entries(records_of(es)->Ok_0 + z, 0) == es,
{
    let r = records_of(es)->Ok_0;
    let data = r + z;
    let n = r.len() as int;
    assert(data.subrange(0, n) =~= r);
    // Past the records, the zeros end the list.
    if n + crate::directory::ENTRY_HEADER_LEN <= data.len() {
        assert(data[n + 16] == 0u8 && data[n + 17] == 0u8);
        assert(((0u8 as u16) | ((0u8 as u16) << 8u16)) == 0u16) by (bit_vector);
        assert(crate::encoding::u16_at(data, n + 16) == 0);
    }
    assert(read_entry_at(data, n) is End);
    lemma_scan_records(data, 0, es);
    lemma_listed_is_scan(data, 0);
}

/// The records that `serialize_into` writes for entries with storable
/// names, one after the other, are what the file system stores for them.
proof fn lemma_serialized_records(es: Seq<EntryView>)
    requires
        forall|k: int| 0 <= k < es.len() ==> storable_name(#[trigger] es[k].name),
    ensures
        records_of(es) == Ok::<Seq<u8>, DirectoryError>(serialized(es)),
    decreases es.len(),
{
    if es.len() > 0 {
        let init = es.drop_last();
        assert forall|k: int| 0 <= k < init.len() implies storable_name(#[trigger] init[k].name) by {
            assert(init[k] == es[k]);
        }
        lemma_serialized_records(init);
        assert(storable_name(es[es.len() - 1].name));
    }
}

/// A nonempty name takes at least one byte.
proof fn lemma_name_bytes(name: Seq<char>)
    requires
        name.len() > 0,
    ensures
        encode_utf8(name).len() > 0,
{
    vstd::utf8::encode_utf8_first_scalar(name);
}

/// Read back through a `DirectoryIterator`, a block holding what
/// `serialize_into` wrote for some entries, one after the other, followed by
/// any number of zero bytes, gives exactly those entries in order and then the
/// end of the list: each step of the walk (`next`, which reads the record at
/// its position as `read_entry_at` says) reads the next entry, no record fails
/// to read, and the step after the last entry finds the end. Each name is not
/// empty, holds no '/' and takes at most `MAX_FILENAME_LEN` bytes.
pub proof fn lemma_serialized_then_zeros(es: Seq<EntryView>, z: Seq<u8>)
    requires
        forall|k: int| 0 <= k < es.len() ==> storable_name(#[trigger] es[k].name),
        forall|k: int| 0 <= k < z.len() ==> #[trigger] z[k] == 0u8,
    ensures
        scan_entries(serialized(es) + z, 0).entries == es,
        scan_entries(serialized(es) + z, 0).end == Some(serialized(es).len() as int),
        listed_entries(serialized(es) + z, 0) == es,
{
    lemma_serialized_records(es);
    assert forall|k: int| 0 <= k < es.len() implies encode_utf8(#[trigger] es[k].name).len() > 0 by {
        lemma_name_bytes(es[k].name);
    }
    lemma_records_then_zeros(es, z);
}

/// How many 256-byte inode slots the inode table holds: its blocks run from
/// `inode_table_block` up to the first data block.
pub open spec fn table_capacity(sb: SuperBlock) -> int {
    (sb.data_block_start - sb.inode_table_block) * 16
}

/// Creating a file or a directory gives an inode whose 256-byte slot lies in
/// the inode table, before the first data block, whenever the inode bitmap has
/// a free id that the table holds a slot for: ids are handed out lowest first.
/// (Once every id that the table holds is taken, the next id's slot lies in
/// the data area: the bitmap counts 32768 ids, and the table that `format`
/// lays out holds 16384.)
pub proof fn lemma_created_slot_in_table(
    s: FsView,
    parent: u64,
    name: Seq<char>,
    kind: FileType,
    now: u64,
    free_id: int,
)
    requires
        0 <= free_id < table_capacity(s.sb),
        block_of(s.image, s.sb.inode_bitmap_block as int) matches Some(b) && free_id < bit_capacity(b)
            && !bit_is_set(b, free_id),
    ensures
        create_spec(s, parent, name, kind, now).1 matches Ok(id) ==> inode_slot(s.sb, id as int) + 256
            <= s.sb.data_block_start * 4096,
{
    let b = block_of(s.image, s.sb.inode_bitmap_block as int)->0;
    lemma_first_free_bit(b);
    if create_spec(s, parent, name, kind, now).1 is Ok {
        let i = first_free_bit(b)->0;
        assert(i <= free_id);
        assert(create_spec(s, parent, name, kind, now).1 == Ok::<u64, DiskManagerError>(i as u64));
    }
}

/// A new directory is empty: looking up any name in it finds nothing, as
/// its block was zeroed when it was taken. This holds when the data area lies
/// after the data bitmap, and the new inode's slot, the parent's slot, the
/// parent's block and the new directory's block lie apart from one another.
pub proof fn lemma_new_directory_empty(s: FsView, parent: u64, name: Seq<char>, now: u64)
    requires
        data_area_apart(s.sb),
    ensures
        create_spec(s, parent, name, FileType::Directory, now) matches (img, Ok(id)) ==> (apart(
            inode_slot(s.sb, id as int),
            256,
            dir_block(s, parent) * 4096,
            4096,
        ) && apart(inode_slot(s.sb, id as int), 256, inode_slot(s.sb, parent as int), 256)
            ==> (read_inode_at(img, s.sb, id as int) matches Ok(j) && j.mode == FileType::Directory && (apart(
            inode_slot(s.sb, id as int),
            256,
            j.blocks[0] * 4096,
            4096,
        ) && apart(inode_slot(s.sb, parent as int), 256, j.blocks[0] * 4096, 4096) && j.blocks[0] != dir_block(s, parent)
            ==> forall|n: Seq<char>| #[trigger] dir_lookup(img, s.sb, id, n) == Err::<u64, DiskManagerError>(
            DiskManagerError::Io(FsFault::NotFound),
        )))),
{
    let img = s.image;
    let sb = s.sb;
    if create_spec(s, parent, name, FileType::Directory, now).1 is Ok {
        let p = read_inode_at(img, sb, parent as int)->Ok_0;
        let pb = p.blocks[0] as int;
        let (img1, ra) = alloc_at(img, sb.inode_bitmap_block as int, 0);
        let id = ra->Ok_0;
        let (img2, rd) = alloc_at(img1, sb.data_bitmap_block as int, sb.data_block_start);
        let d = rd->Ok_0;
        let bytes = block_of(img1, sb.data_bitmap_block as int)->0;
        lemma_first_free_bit(bytes);
        assert(d >= sb.data_block_start);
        let img2z = crate::disk::clear_block(img2, d as int);
        let ni = crate::disk::new_inode(FileType::Directory, now, d);
        let img3 = write_inode_at(img2z, sb, id as int, ni)->0;
        let (img4, re) = add_entry(img3, p.blocks[0], id, name, false);
        let p2 = Inode { modified_at: now, ..p };
        let img5 = write_inode_at(img4, sb, parent as int, p2)->0;
        assert(create_spec(s, parent, name, FileType::Directory, now).0 == img5);
        let slot_id = inode_slot(sb, id as int);
        let slot_p = inode_slot(sb, parent as int);
        if apart(slot_id, 256, pb * 4096, 4096) && apart(slot_id, 256, slot_p, 256) {
            lemma_read_written_inode(img2z, sb, id as int, ni);
            lemma_inode_record(ni);
            lemma_inode_record(p2);
            lemma_overwrite_len(img2z, slot_id, inode_record(ni));
            // The record added to the parent's block stays in that block.
            if block_of(img3, pb) is Some {
                let b3 = block_of(img3, pb)->0;
                let off = scan_entries(b3, 0).end->0;
                lemma_scan_end_bound(b3, 0);
                let rec = new_entry_record(id, name)->Ok_0;
                let fit = min_int(rec.len() as int, 4096 - off);
                let piece = rec.subrange(0, fit);
                assert(img4 == overwrite(img3, pb * 4096 + off, piece));
                crate::fs_props::lemma_inode_kept(img3, sb, id as int, pb * 4096 + off, piece);
                if d as int != pb {
                    lemma_block_kept(img3, pb * 4096 + off, piece, d as int);
                }
                lemma_overwrite_len(img3, pb * 4096 + off, piece);
            } else {
                assert(img4 == img3);
            }
            lemma_overwrite_len(img4, slot_p, inode_record(p2));
            lemma_inode_kept(img4, sb, id as int, slot_p, inode_record(p2));
            assert(read_inode_at(img5, sb, id as int) == Ok::<Inode, DiskManagerError>(ni));
            assert(ni.blocks[0] == d);
            if apart(slot_id, 256, d * 4096, 4096) && apart(slot_p, 256, d * 4096, 4096) && d as int != pb {
                lemma_block_kept(img2z, slot_id, inode_record(ni), d as int);
                lemma_block_kept(img4, slot_p, inode_record(p2), d as int);
                assert(block_of(img5, d as int) == block_of(img2z, d as int));
                if block_of(img2, d as int) is Some {
                    let z = Seq::new(4096, |k: int| 0u8);
                    lemma_overwrite_len(img2, d * 4096, z);
                    assert(img2z.subrange(d * 4096, d * 4096 + 4096) =~= z);
                    assert(block_of(img5, d as int) == Some(z));
                    assert(read_entry_at(z, 0) is End) by {
                        assert(z[16] == 0u8 && z[17] == 0u8);
                        assert(((0u8 as u16) | ((0u8 as u16) << 8u16)) == 0u16) by (bit_vector);
                    }
                    assert(scan_entries(z, 0).entries =~= Seq::<EntryView>::empty());
                } else {
                    assert(block_of(img2z, d as int) is None);
                }
            }
        }
    }
}

} // verus!
