//! Where a write at an offset puts its bytes: into the file's bytes from that
//! offset on, every other byte of the file's blocks left as it was.
use crate::bitmap::{bit_is_set, first_free_bit, lemma_first_free_bit, lemma_set_bit, with_bit_set};
use crate::disk::{
    alloc_at, block_of, gather, inode_slot, lemma_overwrite_len, min_int, read_data_spec, read_inode_at,
    write_chunks, write_inode_at, write_spec, CompressionMode, DiskManagerError, FsView,
};
use crate::encoding::overwrite;
use crate::fs_props::{apart, data_area_apart, data_bitmap, lemma_block_kept, lemma_read_written_inode};
use crate::inode::{inode_record, lemma_inode_record, FileType, Inode};
use vstd::prelude::*;

verus! {

/// Byte `p` of a file whose block pointers are `bl`: 0 in a hole (pointer 0),
/// else the byte at `p % 4096` of block `bl[p / 4096]`; none when the image
/// does not hold that block.
pub open spec fn file_byte(img: Seq<u8>, bl: [u64; 12], p: int) -> Option<u8> {
    if bl@[p / 4096] == 0 {
        Some(0u8)
    } else {
        match block_of(img, bl@[p / 4096] as int) {
            Some(b) => Some(b[p % 4096]),
            None => None,
        }
    }
}

/// The image holds the data bitmap, and the file's blocks in use are data
/// blocks that the bitmap marks, no two of them alike.
pub open spec fn file_blocks(img: Seq<u8>, sb: crate::superblock::SuperBlock, bl: [u64; 12]) -> bool {
    &&& block_of(img, sb.data_bitmap_block as int) is Some
    &&& forall|j: int|
        0 <= j < 12 && #[trigger] bl@[j] != 0 ==> sb.data_block_start <= bl@[j] && bit_is_set(
            data_bitmap(img, sb),
            bl@[j] - sb.data_block_start,
        )
    &&& forall|j: int, l: int| 0 <= j < l < 12 && bl@[j] != 0 ==> #[trigger] bl@[j] != #[trigger] bl@[l]
}

/// A data block, apart from the bitmap, keeps its bytes when the bitmap
/// block is written.
proof fn lemma_data_block_kept(img: Seq<u8>, sb: crate::superblock::SuperBlock, bits: Seq<u8>, x: int)
    requires
        data_area_apart(sb),
        block_of(img, sb.data_bitmap_block as int) is Some,
        bits.len() == 4096,
        sb.data_block_start <= x,
    ensures
        block_of(overwrite(img, sb.data_bitmap_block * 4096, bits), x) == block_of(img, x),
{
    lemma_block_kept(img, sb.data_bitmap_block * 4096, bits, x);
}

/// The block for the chunk at index `idx`: the one the file has, or the first
/// free data block, which the bitmap then marks. The file's other bytes are
/// kept.
proof fn lemma_chunk_block(img: Seq<u8>, sb: crate::superblock::SuperBlock, bl: [u64; 12], idx: int)
    requires
        data_area_apart(sb),
        file_blocks(img, sb, bl),
        0 <= idx < 12,
    ensures
        ({
            let (img1, bl1, rb) = if bl@[idx] == 0 {
                let (i1, r) = alloc_at(img, sb.data_bitmap_block as int, sb.data_block_start);
                match r {
                    Ok(b) => (i1, vstd::array::spec_array_update(bl, idx, b), Ok::<u64, DiskManagerError>(b)),
                    Err(e) => (i1, bl, Err(e)),
                }
            } else {
                (img, bl, Ok(bl@[idx]))
            };
            rb matches Ok(b) ==> {
                &&& file_blocks(img1, sb, bl1)
                &&& img1.len() == img.len()
                &&& b != 0
                &&& bl1@[idx] == b
                &&& forall|j: int| 0 <= j < 12 && j != idx ==> #[trigger] bl1@[j] == bl@[j]
                &&& bl@[idx] != 0 ==> b == bl@[idx]
                &&& forall|x: int| sb.data_block_start <= x ==> #[trigger] block_of(img1, x) == block_of(img, x)
            }
        }),
{
    let bb = sb.data_bitmap_block as int;
    let start = sb.data_block_start;
    if bl@[idx] == 0 {
        let bytes = block_of(img, bb)->0;
        let (i1, r) = alloc_at(img, bb, start);
        if let Ok(b) = r {
            lemma_first_free_bit(bytes);
            let i = first_free_bit(bytes)->0;
            let nb = with_bit_set(bytes, i);
            assert(b == start + i);
            lemma_set_bit(bytes, i, 0);
            lemma_overwrite_len(img, bb * 4096, nb);
            assert(i1 == overwrite(img, bb * 4096, nb));
            assert(block_of(i1, bb) == Some(nb)) by {
                assert(i1.subrange(bb * 4096, bb * 4096 + 4096) =~= nb);
            }
            let bl1 = vstd::array::spec_array_update(bl, idx, b);
            assert(bl1@ == bl@.update(idx, b));
            assert forall|x: int| start <= x implies #[trigger] block_of(i1, x) == block_of(img, x) by {
                lemma_data_block_kept(img, sb, nb, x);
            }
            assert forall|j: int| 0 <= j < 12 && #[trigger] bl1@[j] != 0 implies start <= bl1@[j] && bit_is_set(
                data_bitmap(i1, sb),
                bl1@[j] - start,
            ) by {
                lemma_set_bit(bytes, i, bl1@[j] - start);
            }
            assert forall|j: int, l: int| 0 <= j < l < 12 && bl1@[j] != 0 implies #[trigger] bl1@[j] != #[trigger] bl1@[l] by {
                if j == idx {
                    if bl@[l] == b {
                        assert(bit_is_set(bytes, bl@[l] - start));
                    }
                } else if l == idx {
                    if bl@[j] == b {
                        assert(bit_is_set(bytes, bl@[j] - start));
                    }
                }
            }
        }
    }
}

/// Writing the piece of `buf` from `w` that fits in block `b` at the offset
/// `cur % 4096`, where `b` is the file's block `idx = cur / 4096`: the piece's
/// bytes are the file's bytes from `cur` on where the image holds the block,
/// and every other byte of the file's blocks is kept.
proof fn lemma_chunk_piece(img1: Seq<u8>, sb: crate::superblock::SuperBlock, bl1: [u64; 12], buf: Seq<u8>, w: int, cur: int, b: u64)
    requires
        data_area_apart(sb),
        file_blocks(img1, sb, bl1),
        0 <= w < buf.len(),
        0 <= cur < 12 * 4096,
        b != 0,
        bl1@[cur / 4096] == b,
    ensures
        ({
            let off = cur % 4096;
            let n = min_int(buf.len() - w, 4096 - off);
            let img2 = if block_of(img1, b as int) is Some {
                overwrite(img1, b * 4096 + off, buf.subrange(w, w + n))
            } else {
                img1
            };
            &&& 1 <= n
            &&& cur + n <= (cur / 4096 + 1) * 4096
            &&& file_blocks(img2, sb, bl1)
            &&& img2.len() == img1.len()
            &&& forall|p: int| cur <= p < cur + n ==> (#[trigger] file_byte(img2, bl1, p) matches Some(x) ==> x == buf[w + p - cur])
            &&& forall|p: int|
                0 <= p < 12 * 4096 && !(cur <= p < cur + n) && bl1@[p / 4096] != 0 ==> #[trigger] file_byte(img2, bl1, p)
                    == file_byte(img1, bl1, p)
        }),
{
    let idx = cur / 4096;
    let off = cur % 4096;
    let n = min_int(buf.len() - w, 4096 - off);
    let piece = buf.subrange(w, w + n);
    let present = block_of(img1, b as int) is Some;
    let img2 = if present {
        overwrite(img1, b * 4096 + off, piece)
    } else {
        img1
    };
    let bb = sb.data_bitmap_block as int;
    if present {
        lemma_overwrite_len(img1, b * 4096 + off, piece);
    }
    assert forall|x: int| x != b as int implies #[trigger] block_of(img2, x) == block_of(img1, x) by {
        if present && block_of(img1, x) is Some {
            assert(img2.subrange(x * 4096, x * 4096 + 4096) =~= img1.subrange(x * 4096, x * 4096 + 4096));
        }
    }
    assert(block_of(img2, bb) == block_of(img1, bb));
    assert forall|p: int| cur <= p < cur + n implies (#[trigger] file_byte(img2, bl1, p) matches Some(x) ==> x == buf[w + p - cur]) by {
        assert(p / 4096 == idx);
        assert(p % 4096 == off + (p - cur));
        if present {
            assert(img2[b * 4096 + off + (p - cur)] == piece[p - cur]);
            assert(block_of(img2, b as int)->0[p % 4096] == img2[b * 4096 + p % 4096]);
        }
    }
    assert forall|p: int|
        0 <= p < 12 * 4096 && !(cur <= p < cur + n) && bl1@[p / 4096] != 0 implies #[trigger] file_byte(img2, bl1, p)
        == file_byte(img1, bl1, p) by {
        if bl1@[p / 4096] != b {
            assert(block_of(img2, bl1@[p / 4096] as int) == block_of(img1, bl1@[p / 4096] as int));
        } else if present {
            assert(p / 4096 == idx) by {
                if p / 4096 != idx {
                    assert(bl1@[p / 4096] != bl1@[idx]);
                }
            }
            let q = p % 4096;
            assert(!(off <= q < off + n));
            assert(img2[b * 4096 + q] == img1[b * 4096 + q]);
            assert(block_of(img2, b as int)->0[q] == img2[b * 4096 + q]);
            assert(block_of(img1, b as int)->0[q] == img1[b * 4096 + q]);
        }
    }
}

/// Writing `buf[w..]` at file offsets `o + w` on: when it goes through, it
/// reaches offset `o + buf.len()`, within the 12 blocks; the file keeps its
/// blocks in use and its holes before offset `o + w`; each offset from `o + w`
/// up to `o + buf.len()` has a block and holds its byte of `buf` where the
/// image holds that block; and every other byte of a block the file had is
/// kept.
#[verifier::spinoff_prover]
#[verifier::rlimit(100)]
pub proof fn lemma_chunks_at(img: Seq<u8>, sb: crate::superblock::SuperBlock, bl: [u64; 12], buf: Seq<u8>, w: int, o: int)
    requires
        data_area_apart(sb),
        file_blocks(img, sb, bl),
        0 <= w <= buf.len(),
        0 <= o,
    ensures
        ({
            let (img2, bl2, r) = write_chunks(img, sb, bl, buf, w, o + w);
            r is Ok ==> {
                &&& r == Ok::<int, DiskManagerError>(o + buf.len())
                &&& w < buf.len() ==> o + buf.len() <= 12 * 4096
                &&& file_blocks(img2, sb, bl2)
                &&& img2.len() == img.len()
                &&& forall|j: int| 0 <= j < 12 && bl@[j] != 0 ==> #[trigger] bl2@[j] == bl@[j]
                &&& forall|j: int| 0 <= j < 12 && j < (o + w) / 4096 ==> #[trigger] bl2@[j] == bl@[j]
                &&& forall|p: int|
                    o + w <= p < o + buf.len() ==> bl2@[p / 4096] != 0 && (#[trigger] file_byte(img2, bl2, p) matches Some(
                        x,
                    ) ==> x == buf[p - o])
                &&& forall|p: int|
                    0 <= p < 12 * 4096 && !(o + w <= p < o + buf.len()) && bl@[p / 4096] != 0 ==> #[trigger] file_byte(
                        img2,
                        bl2,
                        p,
                    ) == file_byte(img, bl, p)
            }
        }),
    decreases buf.len() - w,
{
    let cur = o + w;
    if w < buf.len() {
        let idx = cur / 4096;
        if idx < 12 {
            lemma_chunk_block(img, sb, bl, idx);
            let (img1, bl1, rb) = if bl@[idx] == 0 {
                let (i1, r) = alloc_at(img, sb.data_bitmap_block as int, sb.data_block_start);
                match r {
                    Ok(b) => (i1, vstd::array::spec_array_update(bl, idx, b), Ok::<u64, DiskManagerError>(b)),
                    Err(e) => (i1, bl, Err(e)),
                }
            } else {
                (img, bl, Ok(bl@[idx]))
            };
            if let Ok(b) = rb {
                let off = cur % 4096;
                let n = min_int(buf.len() - w, 4096 - off);
                let img2 = if block_of(img1, b as int) is Some {
                    overwrite(img1, b * 4096 + off, buf.subrange(w, w + n))
                } else {
                    img1
                };
                assert(write_chunks(img, sb, bl, buf, w, cur) == write_chunks(img2, sb, bl1, buf, w + n, cur + n));
                lemma_chunk_piece(img1, sb, bl1, buf, w, cur, b);
                lemma_chunks_at(img2, sb, bl1, buf, w + n, o);
                let (img3, bl3, r3) = write_chunks(img2, sb, bl1, buf, w + n, cur + n);
                if r3 is Ok {
                    assert(o + w + n == cur + n);
                    assert forall|p: int| o + w <= p < o + buf.len() implies bl3@[p / 4096] != 0 && (#[trigger] file_byte(
                        img3,
                        bl3,
                        p,
                    ) matches Some(x) ==> x == buf[p - o]) by {
                        if p < cur + n {
                            assert(p / 4096 == idx);
                            assert(file_byte(img3, bl3, p) == file_byte(img2, bl1, p));
                        }
                    }
                    assert forall|p: int|
                        0 <= p < 12 * 4096 && !(o + w <= p < o + buf.len()) && bl@[p / 4096] != 0 implies #[trigger] file_byte(
                            img3,
                            bl3,
                            p,
                        ) == file_byte(img, bl, p) by {
                        assert(bl1@[p / 4096] == bl@[p / 4096]);
                        assert(file_byte(img3, bl3, p) == file_byte(img2, bl1, p));
                        assert(file_byte(img2, bl1, p) == file_byte(img1, bl1, p));
                    }
                    assert forall|j: int| 0 <= j < 12 && j < (o + w) / 4096 implies #[trigger] bl3@[j] == bl@[j] by {
                        assert(j < (o + w + n) / 4096);
                        assert(j != idx);
                    }
                }
            }
        }
    }
}

/// Collecting a file's bytes from its blocks, with every block in use held
/// by the image, gives byte `p` of the file at position `p`, holes as zeros.
proof fn lemma_gather_file(img: Seq<u8>, bl: [u64; 12], want: int, j: int, got: Seq<u8>)
    requires
        0 <= j <= 12,
        0 <= want,
        got.len() == min_int(want, 4096 * j),
        forall|p: int| 0 <= p < got.len() ==> Some(got[p]) == #[trigger] file_byte(img, bl, p),
        forall|k: int| j <= k < 12 && bl@[k] != 0 ==> (#[trigger] block_of(img, bl@[k] as int)) is Some,
    ensures
        gather(img, bl@.subrange(j, 12), want, got).len() == min_int(want, 49152int),
        forall|p: int|
            0 <= p < min_int(want, 49152int) ==> Some(gather(img, bl@.subrange(j, 12), want, got)[p]) == #[trigger] file_byte(
                img,
                bl,
                p,
            ),
    decreases 12 - j,
{
    let blocks = bl@.subrange(j, 12);
    if j < 12 && got.len() < want {
        assert(blocks[0] == bl@[j]);
        assert(blocks.drop_first() =~= bl@.subrange(j + 1, 12));
        let m = min_int(want - got.len(), 4096);
        let got2 = if bl@[j] == 0 {
            got + crate::disk::zeros(m)
        } else {
            got + block_of(img, bl@[j] as int)->0.subrange(0, m)
        };
        assert(gather(img, blocks, want, got) == gather(img, bl@.subrange(j + 1, 12), want, got2));
        assert forall|p: int| 0 <= p < got2.len() implies Some(got2[p]) == #[trigger] file_byte(img, bl, p) by {
            if p >= got.len() {
                assert(p / 4096 == j);
                assert(p % 4096 == p - 4096 * j);
            }
        }
        lemma_gather_file(img, bl, want, j + 1, got2);
    } else if j == 12 {
        assert(blocks.len() == 0);
    }
}

/// Reading a file stored as it is (neither compressed nor encrypted), of at
/// most 12 blocks, whose blocks in use the image holds, gives its bytes:
/// as many as its size says, byte `p` being byte `p` of its blocks, holes
/// reading as zeros.
pub proof fn lemma_read_plain(s: FsView, id: u64)
    requires
        read_inode_at(s.image, s.sb, id as int) matches Ok(i) && {
            &&& i.mode == FileType::File
            &&& i.compressed_size == 0
            &&& !i.encrypted
            &&& i.size <= 12 * 4096
            &&& forall|k: int| 0 <= k < 12 && i.blocks@[k] != 0 ==> (#[trigger] block_of(s.image, i.blocks@[k] as int)) is Some
        },
    ensures
        read_data_spec(s, id) matches Ok(d) && d.len() == read_inode_at(s.image, s.sb, id as int)->Ok_0.size && forall|p: int|
            0 <= p < d.len() ==> Some(d[p]) == #[trigger] file_byte(s.image, read_inode_at(s.image, s.sb, id as int)->Ok_0.blocks, p),
{
    let i = read_inode_at(s.image, s.sb, id as int)->Ok_0;
    lemma_gather_file(s.image, i.blocks, i.size as int, 0, Seq::empty());
    assert(i.blocks@.subrange(0, 12) =~= i.blocks@);
}

/// The larger of two integers.
pub open spec fn larger(a: int, b: int) -> int {
    if a >= b {
        a
    } else {
        b
    }
}

/// Writing `data` at offset `o` into a file stored as it is, and then reading
/// the file, gives `data` at offsets `o..o + data.len()`, a size that is the
/// old size or `o + data.len()`, whichever is larger, and before `o` the
/// bytes it had: wherever a block already held them, and in the holes of the
/// blocks before the one that `o` falls in. The bytes it had are what reading
/// it gave, when the image held its blocks. This holds on a file system
/// without a key, for a write that does not compress (one at a nonzero
/// offset, or in `Never` mode, or in `Auto` mode with less than 8 KB), for a
/// file of at most 12 blocks whose blocks in use are distinct data blocks
/// marked in use, whose slot lies apart from the data bitmap and before the
/// data area, and where the blocks the file then has lie in the image.
pub proof fn lemma_write_at_then_read(
    s: FsView,
    id: u64,
    o: u64,
    data: Seq<u8>,
    mode: CompressionMode,
    now: u64,
    nonce: [u8; 24],
)
    requires
        s.key is None,
        data_area_apart(s.sb),
        0 <= inode_slot(s.sb, id as int),
        inode_slot(s.sb, id as int) + 256 <= s.sb.data_block_start * 4096,
        apart(inode_slot(s.sb, id as int), 256, s.sb.data_bitmap_block * 4096, 4096),
        data.len() > 0,
        o > 0 || mode == CompressionMode::Never || (mode == CompressionMode::Auto && data.len() < 8192),
        read_inode_at(s.image, s.sb, id as int) matches Ok(i) && {
            &&& i.mode == FileType::File
            &&& i.compressed_size == 0
            &&& !i.encrypted
            &&& i.size <= 12 * 4096
            &&& file_blocks(s.image, s.sb, i.blocks)
        },
    ensures
        write_spec(s, id, o, data, mode, now, nonce) matches (img, Ok(_)) ==> ((read_inode_at(img, s.sb, id as int) matches Ok(j)
            && (forall|k: int| 0 <= k < 12 && j.blocks@[k] != 0 ==> (#[trigger] block_of(img, j.blocks@[k] as int)) is Some))
            ==> (read_data_spec(FsView { image: img, ..s }, id) matches Ok(d) && {
            let i = read_inode_at(s.image, s.sb, id as int)->Ok_0;
            &&& d.len() == larger(i.size as int, o + data.len())
            &&& d.subrange(o as int, o + data.len()) == data
            &&& forall|p: int|
                0 <= p < o && p < i.size && (p / 4096 < o / 4096 || i.blocks@[p / 4096] != 0) ==> Some(d[p])
                    == #[trigger] file_byte(s.image, i.blocks, p)
            &&& (forall|k: int| 0 <= k < 12 && i.blocks@[k] != 0 ==> (#[trigger] block_of(s.image, i.blocks@[k] as int)) is Some)
                ==> (read_data_spec(s, id) matches Ok(d0) && forall|p: int|
                0 <= p < o && p < i.size && (p / 4096 < o / 4096 || i.blocks@[p / 4096] != 0) ==> #[trigger] d[p] == d0[p])
        })),
{
    let sb = s.sb;
    let img = s.image;
    let i = read_inode_at(img, sb, id as int)->Ok_0;
    let (img_end, r) = write_spec(s, id, o, data, mode, now, nonce);
    if r is Ok {
        assert(!crate::disk::compression_attempted(i, o, data, mode));
        assert(write_chunks(img, sb, i.blocks, data, 0, o as int) == write_chunks(img, sb, i.blocks, data, 0, o + 0));
        lemma_chunks_at(img, sb, i.blocks, data, 0, o as int);
        let (img1, bl1, rc) = write_chunks(img, sb, i.blocks, data, 0, o as int);
        let end = rc->Ok_0;
        assert(end == o + data.len());
        let i2 = Inode {
            size: if i.size >= end { i.size } else { end as u64 },
            compressed_size: 0,
            modified_at: now,
            blocks: bl1,
            ..i
        };
        assert(write_inode_at(img1, sb, id as int, i2) == Some(img_end));
        lemma_read_written_inode(img1, sb, id as int, i2);
        lemma_inode_record(i2);
        let slot = inode_slot(sb, id as int);
        assert forall|x: int| sb.data_block_start <= x implies #[trigger] block_of(img_end, x) == block_of(img1, x) by {
            lemma_block_kept(img1, slot, inode_record(i2), x);
        }
        let e = FsView { image: img_end, ..s };
        if forall|k: int| 0 <= k < 12 && i2.blocks@[k] != 0 ==> (#[trigger] block_of(img_end, i2.blocks@[k] as int)) is Some {
            lemma_read_plain(e, id);
            let d = read_data_spec(e, id)->Ok_0;
            assert forall|p: int| 0 <= p < 12 * 4096 && bl1@[p / 4096] != 0 implies #[trigger] file_byte(img_end, bl1, p)
                == file_byte(img1, bl1, p) by {
                assert(sb.data_block_start <= bl1@[p / 4096]);
            }
            assert forall|p: int| o <= p < o + data.len() implies d[p] == data[p - o] by {
                assert(file_byte(img_end, bl1, p) == file_byte(img1, bl1, p));
                assert(block_of(img_end, bl1@[p / 4096] as int) is Some);
            }
            assert(d.subrange(o as int, o + data.len()) =~= data);
            assert forall|p: int|
                0 <= p < o && p < i.size && (p / 4096 < o / 4096 || i.blocks@[p / 4096] != 0) implies Some(d[p])
                == #[trigger] file_byte(img, i.blocks, p) by {
                assert(file_byte(img_end, bl1, p) == Some(d[p]));
                if i.blocks@[p / 4096] != 0 {
                    assert(file_byte(img1, bl1, p) == file_byte(img, i.blocks, p));
                } else {
                    assert(bl1@[p / 4096] == i.blocks@[p / 4096]);
                }
            }
            assert(d.len() == i2.size);
            assert(i2.size == larger(i.size as int, o + data.len()));
            if forall|k: int| 0 <= k < 12 && i.blocks@[k] != 0 ==> (#[trigger] block_of(img, i.blocks@[k] as int)) is Some {
                lemma_read_plain(s, id);
                let d0 = read_data_spec(s, id)->Ok_0;
                assert forall|p: int|
                    0 <= p < o && p < i.size && (p / 4096 < o / 4096 || i.blocks@[p / 4096] != 0) implies #[trigger] d[p]
                    == d0[p] by {
                    assert(Some(d[p]) == file_byte(img, i.blocks, p));
                    assert(Some(d0[p]) == file_byte(img, i.blocks, p));
                }
            }
        }
    }
}

} // verus!
