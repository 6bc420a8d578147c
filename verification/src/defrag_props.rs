//! What the rewrite pass of defragmentation leaves behind: the blocks in use
//! form one run from the start of the data area, each carried inode's blocks
//! follow one another within it, and each carried inode keeps its mode, size,
//! contents and lookups.
use crate::bitmap::{bit_capacity, bit_is_set, first_free_bit, lemma_first_free_bit, lemma_set_bit, with_bit_set};
use crate::compression::zstd_frame;
use crate::disk::{
    alloc_at, block_of, compression_attempted, first_block_only, inode_slot, lemma_overwrite_len, min_int,
    clear_block, live_files, no_blocks, read_inode_at, relay_step, relayout_mode, relayout_plan, rewrites,
    write_chunks, write_inode_at, write_spec, write_facts, read_data_spec, dir_lookup, gather,
    DiskManagerError, FsView,
};
use crate::encoding::overwrite;
use crate::encryption::xchacha_sealed;
use crate::fs_props::{
    apart, data_area_apart, data_bitmap, lemma_block_kept, lemma_chunks_too_long, lemma_read_written_inode,
    lemma_write_then_read, prefix_blocks,
};
use crate::inode::{inode_record, lemma_inode_record, FileType, Inode};
use vstd::prelude::*;

verus! {

/// The data bitmap marks exactly its first `c` bits.
pub open spec fn bitmap_prefix(img: Seq<u8>, sb: crate::superblock::SuperBlock, c: int) -> bool {
    &&& block_of(img, sb.data_bitmap_block as int) is Some
    &&& 0 <= c <= bit_capacity(data_bitmap(img, sb))
    &&& forall|i: int|
        0 <= i < bit_capacity(data_bitmap(img, sb)) ==> (#[trigger] bit_is_set(data_bitmap(img, sb), i) <==> i < c)
}

/// Whether byte `x` lies in block `b`.
pub open spec fn in_block(x: int, b: int) -> bool {
    b * 4096 <= x < b * 4096 + 4096
}

/// Taking a block from a bitmap that marks its first `c` bits gives the data
/// block `c` and marks the first `c + 1`; only the bitmap block changes.
proof fn lemma_prefix_alloc(img: Seq<u8>, sb: crate::superblock::SuperBlock, c: int)
    requires
        bitmap_prefix(img, sb, c),
    ensures
        ({
            let (img1, r) = alloc_at(img, sb.data_bitmap_block as int, sb.data_block_start);
            &&& img1.len() == img.len()
            &&& forall|x: int| 0 <= x < img.len() && !in_block(x, sb.data_bitmap_block as int) ==> #[trigger] img1[x] == img[x]
            &&& r matches Ok(b) ==> b == sb.data_block_start + c && bitmap_prefix(img1, sb, c + 1)
        }),
{
    let bb = sb.data_bitmap_block as int;
    let bytes = block_of(img, bb)->0;
    let (img1, r) = alloc_at(img, bb, sb.data_block_start);
    lemma_first_free_bit(bytes);
    if let Ok(b) = r {
        let i = first_free_bit(bytes)->0;
        if i < c {
            assert(bit_is_set(bytes, i));
        }
        if c < i {
            assert(bit_is_set(bytes, c));
        }
        assert(i == c);
        let nb = with_bit_set(bytes, i);
        lemma_overwrite_len(img, bb * 4096, nb);
        assert(block_of(img1, bb) == Some(nb)) by {
            assert(img1.subrange(bb * 4096, bb * 4096 + 4096) =~= nb);
        }
        assert forall|j: int| 0 <= j < bit_capacity(nb) implies (#[trigger] bit_is_set(nb, j) <==> j < c + 1) by {
            lemma_set_bit(bytes, i, j);
        }
        lemma_set_bit(bytes, i, 0);
    }
}

/// The first `n` block pointers are `first`, `first + 1`, ..., and the rest 0.
pub open spec fn run_blocks(bl: [u64; 12], first: int, n: int) -> bool {
    &&& 0 <= n <= 12
    &&& forall|j: int| 0 <= j < n ==> #[trigger] bl@[j] == first + j
    &&& forall|j: int| n <= j < 12 ==> #[trigger] bl@[j] == 0
}

/// Whether byte `x` lies in the `n` blocks from block `first` on.
pub open spec fn in_run(x: int, first: int, n: int) -> bool {
    first * 4096 <= x < (first + n) * 4096
}

/// `img` has the bytes of `img0` but in the data bitmap and in the `n` data
/// blocks from `first` on.
pub open spec fn kept_but(img0: Seq<u8>, img: Seq<u8>, sb: crate::superblock::SuperBlock, first: int, n: int) -> bool {
    &&& img.len() == img0.len()
    &&& forall|x: int|
        0 <= x < img0.len() && !in_block(x, sb.data_bitmap_block as int) && !in_run(x, first, n) ==> #[trigger] img[x]
            == img0[x]
}

/// Writing from offset 0 into a file with no blocks, from a bitmap that
/// marks a prefix: the chunks take the next data blocks, one after the other.
proof fn lemma_run_chunks(
    img0: Seq<u8>,
    img: Seq<u8>,
    sb: crate::superblock::SuperBlock,
    bl: [u64; 12],
    buf: Seq<u8>,
    k: int,
    c0: int,
)
    requires
        data_area_apart(sb),
        0 <= k,
        0 <= c0,
        4096 * k < buf.len() <= 12 * 4096,
        bitmap_prefix(img, sb, c0 + k),
        run_blocks(bl, sb.data_block_start + c0, k),
        kept_but(img0, img, sb, sb.data_block_start + c0, k),
    ensures
        ({
            let (img2, bl2, r) = write_chunks(img, sb, bl, buf, 4096 * k, 4096 * k);
            let nk = ((buf.len() + 4095) / 4096) as int;
            r is Ok ==> {
                &&& r == Ok::<int, DiskManagerError>(buf.len() as int)
                &&& run_blocks(bl2, sb.data_block_start + c0, nk)
                &&& bitmap_prefix(img2, sb, c0 + nk)
                &&& kept_but(img0, img2, sb, sb.data_block_start + c0, nk)
            }
        }),
    decreases buf.len() - 4096 * k,
{
    let bb = sb.data_bitmap_block as int;
    let start = sb.data_block_start as int;
    assert((4096 * k) / 4096 == k);
    assert((4096 * k) % 4096 == 0);
    assert(k < 12);
    assert(bl@[k] == 0);
    let (img1, ra) = alloc_at(img, bb, sb.data_block_start);
    lemma_prefix_alloc(img, sb, c0 + k);
    if let Ok(b) = ra {
        let bl1 = vstd::array::spec_array_update(bl, k, b);
        assert(bl1@ == bl@.update(k, b));
        assert(run_blocks(bl1, start + c0, k + 1));
        let n = min_int(buf.len() - 4096 * k, 4096);
        let piece = buf.subrange(4096 * k, 4096 * k + n);
        let img2 = if block_of(img1, b as int) is Some {
            overwrite(img1, b * 4096, piece)
        } else {
            img1
        };
        if block_of(img1, b as int) is Some {
            lemma_overwrite_len(img1, b * 4096, piece);
        }
        assert(b as int > bb);
        // The bitmap block keeps its bytes.
        assert(block_of(img2, bb) == block_of(img1, bb)) by {
            assert(img2.subrange(bb * 4096, bb * 4096 + 4096) =~= img1.subrange(bb * 4096, bb * 4096 + 4096));
        }
        assert(data_bitmap(img2, sb) == data_bitmap(img1, sb));
        assert(bitmap_prefix(img2, sb, c0 + k + 1));
        assert forall|x: int|
            0 <= x < img0.len() && !in_block(x, bb) && !in_run(x, start + c0, k + 1) implies #[trigger] img2[x]
                == img0[x] by {
            assert(!in_run(x, start + c0, k));
            assert(!(b * 4096 <= x < b * 4096 + 4096));
        }
        assert(kept_but(img0, img2, sb, start + c0, k + 1));
        assert(write_chunks(img, sb, bl, buf, 4096 * k, 4096 * k) == write_chunks(img2, sb, bl1, buf, 4096 * k + n, 4096 * k + n));
        if 4096 * k + n < buf.len() {
            assert(n == 4096);
            assert(4096 * k + n == 4096 * (k + 1));
            lemma_run_chunks(img0, img2, sb, bl1, buf, k + 1, c0);
        } else {
            assert((buf.len() + 4095) / 4096 == k + 1);
            assert(write_chunks(img2, sb, bl1, buf, 4096 * k + n, 4096 * k + n) == (img2, bl1, Ok::<int, DiskManagerError>(4096 * k + n)));
        }
    }
}

/// `img` has the bytes of `img0` but in the data bitmap, in the `n` data
/// blocks from `first` on, and in the slot of inode `id`.
pub open spec fn kept_but_slot(
    img0: Seq<u8>,
    img: Seq<u8>,
    sb: crate::superblock::SuperBlock,
    first: int,
    n: int,
    id: u64,
) -> bool {
    &&& img.len() == img0.len()
    &&& forall|x: int|
        0 <= x < img0.len() && !in_block(x, sb.data_bitmap_block as int) && !in_run(x, first, n) && !(inode_slot(
            sb,
            id as int,
        ) <= x < inode_slot(sb, id as int) + 256) ==> #[trigger] img[x] == img0[x]
}

/// The slot of inode `id` lies apart from the data bitmap and before the
/// data area.
pub open spec fn slot_placed(sb: crate::superblock::SuperBlock, id: u64) -> bool {
    &&& apart(inode_slot(sb, id as int), 256, sb.data_bitmap_block * 4096, 4096)
    &&& inode_slot(sb, id as int) + 256 <= sb.data_block_start * 4096
    &&& 0 <= inode_slot(sb, id as int)
}

/// Storing an inode in a slot apart from the data bitmap keeps a bitmap
/// that marks a prefix, and every byte outside the slot.
proof fn lemma_slot_write(img: Seq<u8>, sb: crate::superblock::SuperBlock, id: u64, i: Inode, c: int)
    requires
        slot_placed(sb, id),
        bitmap_prefix(img, sb, c),
        write_inode_at(img, sb, id as int, i) is Some,
    ensures
        bitmap_prefix(write_inode_at(img, sb, id as int, i)->0, sb, c),
        write_inode_at(img, sb, id as int, i)->0.len() == img.len(),
        forall|x: int|
            0 <= x < img.len() && !(inode_slot(sb, id as int) <= x < inode_slot(sb, id as int) + 256) ==> #[trigger] write_inode_at(
                img,
                sb,
                id as int,
                i,
            )->0[x] == img[x],
{
    lemma_inode_record(i);
    let off = inode_slot(sb, id as int);
    lemma_overwrite_len(img, off, inode_record(i));
    lemma_block_kept(img, off, inode_record(i), sb.data_bitmap_block as int);
    let img1 = write_inode_at(img, sb, id as int, i)->0;
    assert(data_bitmap(img1, sb) == data_bitmap(img, sb));
}

/// A file's step of the pass that goes through, from a bitmap that marks a
/// prefix: the file takes the next data blocks one after the other, the
/// bitmap marks them too, and nothing else changes but the file's slot.
proof fn lemma_file_step(s: FsView, id: u64, i: Inode, data: Seq<u8>, img_end: Seq<u8>, c: int) -> (n: int)
    requires
        data_area_apart(s.sb),
        slot_placed(s.sb, id),
        bitmap_prefix(s.image, s.sb, c),
        0 <= c,
        i.mode != FileType::Directory,
        relay_step(s, id, i, data, img_end, Ok::<(), DiskManagerError>(())),
    ensures
        0 <= n,
        bitmap_prefix(img_end, s.sb, c + n),
        kept_but_slot(s.image, img_end, s.sb, s.sb.data_block_start + c, n, id),
        read_inode_at(img_end, s.sb, id as int) matches Ok(j) && run_blocks(j.blocks, s.sb.data_block_start + c, n)
            && j.mode == i.mode && (data.len() == i.size ==> j.size == i.size),
        i.mode == FileType::File && data.len() == i.size && (i.encrypted ==> s.key is Some) ==> (read_inode_at(
            img_end,
            s.sb,
            id as int,
        ) matches Ok(j) && (forall|k: int| 0 <= k < 12 && j.blocks@[k] != 0 ==> (#[trigger] block_of(img_end, j.blocks@[k] as int)) is Some)
            ==> read_data_spec(FsView { image: img_end, ..s }, id) == Ok::<Seq<u8>, DiskManagerError>(data)),
{
    let sb = s.sb;
    let start = sb.data_block_start as int;
    let i0 = Inode { blocks: no_blocks(), ..i };
    let img1 = write_inode_at(s.image, sb, id as int, i0)->0;
    let s1 = FsView { image: img1, ..s };
    let mode = relayout_mode(i);
    lemma_slot_write(s.image, sb, id, i0, c);
    lemma_read_written_inode(s.image, sb, id as int, i0);
    let (now, nonce) = choose|now: u64, nonce: [u8; 24]|
        (img_end, Ok::<(), DiskManagerError>(())) == #[trigger] write_spec(s1, id, 0, data, mode, now, nonce)
            && (Ok::<(), DiskManagerError>(()) is Ok ==> write_facts(s1, id, 0, data, mode, nonce));
    assert(write_facts(s1, id, 0, data, mode, nonce));
    assert(write_spec(s1, id, 0, data, mode, now, nonce) == (img_end, Ok::<(), DiskManagerError>(())));
    let encrypting = s.key is Some && i0.mode == FileType::File;
    let frame = zstd_frame(data);
    let attempt = compression_attempted(i0, 0, data, mode);
    let is_c = attempt && (mode == crate::disk::CompressionMode::Always || frame.len() < data.len());
    let payload = if is_c { frame } else { data };
    let buf = if encrypting { xchacha_sealed(s.key->0, nonce@, payload) } else { payload };
    let (img2, bl1, rc) = write_chunks(img1, sb, i0.blocks, buf, 0, 0);
    let end = rc->Ok_0;
    let nk = ((buf.len() + 4095) / 4096) as int;
    assert(i0.blocks@ =~= Seq::new(12, |k: int| 0u64));
    assert(run_blocks(i0.blocks, start + c, 0));
    if buf.len() > 12 * 4096 {
        lemma_chunks_too_long(img1, sb, i0.blocks, buf, 0);
    }
    if buf.len() > 0 {
        assert(0int * 4096 == 0);
        assert forall|x: int| 0 <= x < img1.len() && !in_block(x, sb.data_bitmap_block as int) && !in_run(x, start + c, 0) implies #[trigger] img1[x] == img1[x] by {}
        lemma_run_chunks(img1, img1, sb, i0.blocks, buf, 0, c);
    } else {
        assert(nk == 0);
        assert(img2 == img1 && bl1 == i0.blocks);
        assert(end == 0);
    }
    assert(end == buf.len());
    let i2 = if encrypting {
        Inode {
            size: data.len() as u64,
            compressed_size: if is_c { payload.len() as u64 } else { 0 },
            modified_at: now,
            blocks: bl1,
            encrypted: true,
            encryption_nonce: nonce,
            ..i0
        }
    } else if is_c {
        Inode { size: data.len() as u64, compressed_size: buf.len() as u64, modified_at: now, blocks: bl1, ..i0 }
    } else {
        Inode { size: if i0.size >= end { i0.size } else { end as u64 }, compressed_size: 0, modified_at: now, blocks: bl1, ..i0 }
    };
    assert(write_inode_at(img2, sb, id as int, i2) is Some);
    assert(img_end == write_inode_at(img2, sb, id as int, i2)->0);
    lemma_slot_write(img2, sb, id, i2, c + nk);
    lemma_read_written_inode(img2, sb, id as int, i2);
    if i.mode == FileType::File && data.len() == i.size && (i.encrypted ==> s.key is Some) {
        assert(i0.blocks@ =~= Seq::new(12, |k: int| 0u64));
        assert(prefix_blocks(img1, sb, i0.blocks, 0));
        lemma_write_then_read(s1, id, data, mode, now, nonce, 0);
    }
    assert forall|x: int|
        0 <= x < s.image.len() && !in_block(x, sb.data_bitmap_block as int) && !in_run(x, start + c, nk) && !(inode_slot(
            sb,
            id as int,
        ) <= x < inode_slot(sb, id as int) + 256) implies #[trigger] img_end[x] == s.image[x] by {
        assert(img_end[x] == img2[x]);
        assert(img2[x] == img1[x]);
        assert(img1[x] == s.image[x]);
    }
    nk
}

/// A directory's step of the pass that goes through, from a bitmap that
/// marks a prefix: the directory takes the next data block, which the bitmap
/// marks too, and nothing else changes but its slot.
proof fn lemma_dir_step(s: FsView, id: u64, i: Inode, data: Seq<u8>, img_end: Seq<u8>, c: int)
    requires
        data_area_apart(s.sb),
        slot_placed(s.sb, id),
        bitmap_prefix(s.image, s.sb, c),
        0 <= c,
        i.mode == FileType::Directory,
        relay_step(s, id, i, data, img_end, Ok::<(), DiskManagerError>(())),
    ensures
        bitmap_prefix(img_end, s.sb, c + 1),
        kept_but_slot(s.image, img_end, s.sb, s.sb.data_block_start + c, 1, id),
        read_inode_at(img_end, s.sb, id as int) matches Ok(j) && run_blocks(j.blocks, s.sb.data_block_start + c, 1)
            && j.mode == i.mode && j.size == i.size && (data.len() == 4096 && block_of(img_end, j.blocks[0] as int) is Some
            ==> block_of(img_end, j.blocks[0] as int) == Some(data)),
{
    let sb = s.sb;
    let start = sb.data_block_start as int;
    let bb = sb.data_bitmap_block as int;
    let (img1, ra) = alloc_at(s.image, bb, sb.data_block_start);
    lemma_prefix_alloc(s.image, sb, c);
    let b = ra->Ok_0;
    let img2 = if block_of(img1, b as int) is Some && data.len() == 4096 {
        overwrite(img1, b * 4096, data)
    } else {
        img1
    };
    if block_of(img1, b as int) is Some && data.len() == 4096 {
        lemma_overwrite_len(img1, b * 4096, data);
        assert(block_of(img2, bb) == block_of(img1, bb)) by {
            assert(img2.subrange(bb * 4096, bb * 4096 + 4096) =~= img1.subrange(bb * 4096, bb * 4096 + 4096));
        }
    }
    assert(data_bitmap(img2, sb) == data_bitmap(img1, sb));
    let i2 = Inode { blocks: first_block_only(b), ..i };
    assert(first_block_only(b)@ =~= seq![b].add(Seq::new(11, |k: int| 0u64)));
    assert(run_blocks(first_block_only(b), start + c, 1));
    lemma_slot_write(img2, sb, id, i2, c + 1);
    lemma_read_written_inode(img2, sb, id as int, i2);
    lemma_inode_record(i2);
    lemma_block_kept(img2, inode_slot(sb, id as int), inode_record(i2), b as int);
    if block_of(img1, b as int) is Some && data.len() == 4096 {
        assert(img2.subrange(b * 4096, b * 4096 + 4096) =~= data);
    }
    assert forall|x: int|
        0 <= x < s.image.len() && !in_block(x, bb) && !in_run(x, start + c, 1) && !(inode_slot(sb, id as int) <= x
            < inode_slot(sb, id as int) + 256) implies #[trigger] img_end[x] == s.image[x] by {
        assert(img_end[x] == img2[x]);
        assert(img2[x] == img1[x]);
    }
}

/// Inode `id` reads back with blocks that follow one another, within the
/// data blocks `lo..hi`.
pub open spec fn packed(img: Seq<u8>, sb: crate::superblock::SuperBlock, id: u64, lo: int, hi: int) -> bool {
    read_inode_at(img, sb, id as int) matches Ok(i) && exists|first: int, n: int|
        #[trigger] run_blocks(i.blocks, first, n) && lo <= first && first + n <= hi
}

/// Whether byte `x` lies in the slot of one of the inodes `items[k..]`.
pub open spec fn in_some_slot(sb: crate::superblock::SuperBlock, items: Seq<(u64, Inode, Seq<u8>)>, k: int, x: int) -> bool {
    exists|j: int| k <= j < items.len() && inode_slot(sb, #[trigger] items[j].0 as int) <= x < inode_slot(sb, items[j].0 as int) + 256
}

/// The inodes `items[k..]` have slots apart from the data bitmap and before
/// the data area, and come in increasing id order.
pub open spec fn items_placed(sb: crate::superblock::SuperBlock, items: Seq<(u64, Inode, Seq<u8>)>, k: int) -> bool {
    &&& forall|j: int| k <= j < items.len() ==> slot_placed(sb, #[trigger] items[j].0)
    &&& forall|j: int, l: int| k <= j < l < items.len() ==> items[j].0 < items[l].0
}

/// What the pass leaves of carried inode `t` in `img`: it reads back with
/// its mode; a file that read back whole keeps its size, and when its blocks
/// all lie in the image reads back as `t.2`; a directory keeps its size, has
/// a block, and when that block lies in the image it holds the bytes `t.2`.
pub open spec fn relaid(img: Seq<u8>, sb: crate::superblock::SuperBlock, key: Option<Seq<u8>>, t: (u64, Inode, Seq<u8>)) -> bool {
    read_inode_at(img, sb, t.0 as int) matches Ok(j) && {
        &&& j.mode == t.1.mode
        &&& t.1.mode == FileType::File && t.2.len() == t.1.size ==> j.size == t.1.size
        &&& t.1.mode == FileType::File && t.2.len() == t.1.size && (t.1.encrypted ==> key is Some) && (forall|k: int|
            0 <= k < 12 && j.blocks@[k] != 0 ==> (#[trigger] block_of(img, j.blocks@[k] as int)) is Some)
            ==> read_data_spec(FsView { image: img, sb, key }, t.0) == Ok::<Seq<u8>, DiskManagerError>(t.2)
        &&& t.1.mode == FileType::Directory ==> j.size == t.1.size && j.blocks[0] != 0 && (t.2.len() == 4096
            && block_of(img, j.blocks[0] as int) is Some ==> block_of(img, j.blocks[0] as int) == Some(t.2))
    }
}

/// Collecting bytes from blocks that two images hold alike gives the same.
proof fn lemma_gather_frame(img1: Seq<u8>, img2: Seq<u8>, blocks: Seq<u64>, want: int, got: Seq<u8>)
    requires
        forall|k: int| 0 <= k < blocks.len() && blocks[k] != 0 ==> #[trigger] block_of(img1, blocks[k] as int) == block_of(img2, blocks[k] as int),
    ensures
        gather(img1, blocks, want, got) == gather(img2, blocks, want, got),
    decreases blocks.len(),
{
    if blocks.len() > 0 && got.len() < want {
        let rest = blocks.drop_first();
        assert forall|k: int| 0 <= k < rest.len() && rest[k] != 0 implies #[trigger] block_of(img1, rest[k] as int) == block_of(img2, rest[k] as int) by {
            assert(rest[k] == blocks[k + 1]);
        }
        if blocks[0] != 0 {
            assert(block_of(img1, blocks[0] as int) == block_of(img2, blocks[0] as int));
        }
        let g1 = if blocks[0] == 0 {
            got + crate::disk::zeros(min_int(want - got.len(), 4096))
        } else {
            match block_of(img1, blocks[0] as int) {
                None => got,
                Some(b) => got + b.subrange(0, min_int(want - got.len(), 4096)),
            }
        };
        lemma_gather_frame(img1, img2, rest, want, g1);
    }
}

/// Two images of one length that agree on the bytes of block `b` hold it alike.
proof fn lemma_block_agree(img1: Seq<u8>, img2: Seq<u8>, b: int)
    requires
        img1.len() == img2.len(),
        forall|x: int| b * 4096 <= x < b * 4096 + 4096 && 0 <= x < img1.len() ==> #[trigger] img1[x] == img2[x],
    ensures
        block_of(img1, b) == block_of(img2, b),
{
    if block_of(img1, b) is Some {
        assert(img1.subrange(b * 4096, b * 4096 + 4096) =~= img2.subrange(b * 4096, b * 4096 + 4096));
    }
}

/// What the pass left of a carried inode stays while later steps keep the
/// bytes of its slot and of its blocks, which run from block `first`.
proof fn lemma_relaid_kept(
    img1: Seq<u8>,
    img2: Seq<u8>,
    sb: crate::superblock::SuperBlock,
    key: Option<Seq<u8>>,
    t: (u64, Inode, Seq<u8>),
    first: int,
    n: int,
)
    requires
        relaid(img1, sb, key, t),
        0 < first,
        read_inode_at(img1, sb, t.0 as int) matches Ok(j) && run_blocks(j.blocks, first, n),
        img1.len() == img2.len(),
        forall|x: int| inode_slot(sb, t.0 as int) <= x < inode_slot(sb, t.0 as int) + 256 ==> #[trigger] img2[x] == img1[x],
        forall|x: int| first * 4096 <= x < (first + n) * 4096 && x < img1.len() ==> #[trigger] img2[x] == img1[x],
    ensures
        relaid(img2, sb, key, t),
{
    let o = inode_slot(sb, t.0 as int);
    let j = read_inode_at(img1, sb, t.0 as int)->Ok_0;
    assert(img2.subrange(o, o + 256) =~= img1.subrange(o, o + 256));
    assert(read_inode_at(img2, sb, t.0 as int) == read_inode_at(img1, sb, t.0 as int));
    assert forall|k: int| 0 <= k < 12 && j.blocks@[k] != 0 implies #[trigger] block_of(img1, j.blocks@[k] as int) == block_of(img2, j.blocks@[k] as int) by {
        assert(k < n);
        let b = j.blocks@[k] as int;
        assert(b == first + k);
        assert forall|x: int| b * 4096 <= x < b * 4096 + 4096 && 0 <= x < img1.len() implies #[trigger] img1[x] == img2[x] by {
            assert(first * 4096 <= x < (first + n) * 4096);
        }
        lemma_block_agree(img1, img2, b);
    }
    lemma_gather_frame(img1, img2, j.blocks@, crate::disk::stored_len(j), Seq::empty());
    assert(read_data_spec(FsView { image: img2, sb, key }, t.0) == read_data_spec(FsView { image: img1, sb, key }, t.0));
    if t.1.mode == FileType::Directory {
        assert(j.blocks@[0] != 0);
        assert(block_of(img1, j.blocks@[0] as int) == block_of(img2, j.blocks@[0] as int));
    }
}

/// A pass over `items[k..]` that goes through, from a bitmap that marks its
/// first `c` bits: it ends with a bitmap that marks its first `c_end` bits,
/// each inode's blocks following one another within the data blocks it
/// took, and the bytes outside the bitmap, the slots of those inodes and the
/// data blocks from `c` on left as they were.
proof fn lemma_rewrites_pack(
    sb: crate::superblock::SuperBlock,
    key: Option<Seq<u8>>,
    img: Seq<u8>,
    items: Seq<(u64, Inode, Seq<u8>)>,
    k: int,
    c: int,
    img_end: Seq<u8>,
) -> (c_end: int)
    requires
        data_area_apart(sb),
        bitmap_prefix(img, sb, c),
        0 <= c,
        0 <= k <= items.len(),
        items_placed(sb, items, k),
        rewrites(sb, key, img, items, k, img_end, Ok::<(), DiskManagerError>(())),
    ensures
        c <= c_end,
        bitmap_prefix(img_end, sb, c_end),
        img_end.len() == img.len(),
        forall|j: int| k <= j < items.len() ==> packed(img_end, sb, #[trigger] items[j].0, sb.data_block_start + c, sb.data_block_start + c_end),
        forall|j: int| k <= j < items.len() ==> #[trigger] relaid(img_end, sb, key, items[j]),
        forall|x: int|
            0 <= x < img.len() && !in_block(x, sb.data_bitmap_block as int) && x < (sb.data_block_start + c) * 4096
                && !in_some_slot(sb, items, k, x) ==> #[trigger] img_end[x] == img[x],
    decreases items.len() - k,
{
    let start = sb.data_block_start as int;
    if k >= items.len() {
        assert(img_end == img);
        c
    } else {
        let s = FsView { image: img, sb, key };
        let (mid, rm) = choose|mid: Seq<u8>, rm: Result<(), DiskManagerError>|
            #[trigger] relay_step(s, items[k].0, items[k].1, items[k].2, mid, rm) && match rm {
                Err(e) => img_end == mid && Ok::<(), DiskManagerError>(()) == Err::<(), DiskManagerError>(e),
                Ok(_) => rewrites(sb, key, mid, items, k + 1, img_end, Ok::<(), DiskManagerError>(())),
            };
        assert(rm is Ok);
        let id = items[k].0;
        assert(slot_placed(sb, id));
        let n = if items[k].1.mode == FileType::Directory {
            lemma_dir_step(s, id, items[k].1, items[k].2, mid, c);
            1int
        } else {
            lemma_file_step(s, id, items[k].1, items[k].2, mid, c)
        };
        assert(items_placed(sb, items, k + 1));
        assert(relaid(mid, sb, key, items[k]));
        let c_end = lemma_rewrites_pack(sb, key, mid, items, k + 1, c + n, img_end);
        // The slot of inode `id` is none of the later ones, and lies outside
        // the bitmap and the data area.
        let o = inode_slot(sb, id as int);
        assert forall|x: int| o <= x < o + 256 implies #[trigger] img_end[x] == mid[x] by {
            assert(x < start * 4096);
            assert(!in_block(x, sb.data_bitmap_block as int));
            if in_some_slot(sb, items, k + 1, x) {
                let j = choose|j: int| k + 1 <= j < items.len() && inode_slot(sb, #[trigger] items[j].0 as int) <= x < inode_slot(sb, items[j].0 as int) + 256;
                assert(items[k].0 < items[j].0);
            }
        }
        let ri = read_inode_at(mid, sb, id as int)->Ok_0;
        assert(img_end.subrange(o, o + 256) =~= mid.subrange(o, o + 256));
        assert(read_inode_at(img_end, sb, id as int) == read_inode_at(mid, sb, id as int));
        assert(run_blocks(ri.blocks, start + c, n));
        assert(packed(img_end, sb, id, start + c, start + c_end));
        assert forall|x: int| (start + c) * 4096 <= x < (start + c + n) * 4096 && x < mid.len() implies #[trigger] img_end[x] == mid[x] by {
            assert(!in_block(x, sb.data_bitmap_block as int));
            if in_some_slot(sb, items, k + 1, x) {
                let j = choose|j: int| k + 1 <= j < items.len() && inode_slot(sb, #[trigger] items[j].0 as int) <= x < inode_slot(sb, items[j].0 as int) + 256;
                assert(slot_placed(sb, items[j].0));
            }
        }
        lemma_relaid_kept(mid, img_end, sb, key, items[k], start + c, n);
        assert forall|j: int| k <= j < items.len() implies #[trigger] relaid(img_end, sb, key, items[j]) by {
            if j > k {
                assert(relaid(img_end, sb, key, items[j]));
            }
        }
        assert forall|j: int| k <= j < items.len() implies packed(img_end, sb, #[trigger] items[j].0, start + c, start + c_end) by {
            if j > k {
                assert(packed(img_end, sb, items[j].0, start + c + n, start + c_end));
                let ij = read_inode_at(img_end, sb, items[j].0 as int)->Ok_0;
                let (f, m) = choose|first: int, n2: int| #[trigger] run_blocks(ij.blocks, first, n2) && start + c + n <= first && first + n2 <= start + c_end;
                assert(run_blocks(ij.blocks, f, m));
            }
        }
        assert forall|x: int|
            0 <= x < img.len() && !in_block(x, sb.data_bitmap_block as int) && x < (start + c) * 4096
                && !in_some_slot(sb, items, k, x) implies #[trigger] img_end[x] == img[x] by {
            assert(!in_run(x, start + c, n));
            if o <= x < o + 256 {
                assert(in_some_slot(sb, items, k, x));
            }
            assert(mid[x] == img[x]);
            if in_some_slot(sb, items, k + 1, x) {
                let j = choose|j: int| k + 1 <= j < items.len() && inode_slot(sb, #[trigger] items[j].0 as int) <= x < inode_slot(sb, items[j].0 as int) + 256;
                assert(in_some_slot(sb, items, k, x));
            }
            assert(x < (start + c + n) * 4096);
        }
        c_end
    }
}

/// The inodes the pass carries come in increasing id order, below `n`.
proof fn lemma_live_files_ordered(s: FsView, used: Seq<u8>, n: nat)
    requires
        live_files(s, used, n) is Ok,
        n <= u64::MAX,
    ensures
        forall|j: int| 0 <= j < live_files(s, used, n)->Ok_0.len() ==> #[trigger] live_files(s, used, n)->Ok_0[j].0 < n,
        forall|j: int, l: int|
            0 <= j < l < live_files(s, used, n)->Ok_0.len() ==> live_files(s, used, n)->Ok_0[j].0 < live_files(
                s,
                used,
                n,
            )->Ok_0[l].0,
    decreases n,
{
    if n > 0 {
        lemma_live_files_ordered(s, used, (n - 1) as nat);
        let prev = live_files(s, used, (n - 1) as nat)->Ok_0;
        let cur = live_files(s, used, n)->Ok_0;
        assert(cur.len() == prev.len() || cur.len() == prev.len() + 1);
        assert(forall|j: int| 0 <= j < prev.len() ==> #[trigger] cur[j] == prev[j]);
        assert(cur.len() == prev.len() + 1 ==> cur[prev.len() as int].0 == n - 1);
        assert forall|j: int, l: int| 0 <= j < l < cur.len() implies cur[j].0 < cur[l].0 by {
            if l == prev.len() {
                assert(cur[j] == prev[j]);
            } else {
                assert(cur[j] == prev[j] && cur[l] == prev[l]);
            }
        }
        assert forall|j: int| 0 <= j < cur.len() implies #[trigger] cur[j].0 < n by {
            if j < prev.len() {
                assert(cur[j] == prev[j]);
            }
        }
    }
}

/// A bitmap block of zeros marks no bit.
proof fn lemma_cleared_prefix(img: Seq<u8>, sb: crate::superblock::SuperBlock)
    requires
        block_of(img, sb.data_bitmap_block as int) is Some,
    ensures
        bitmap_prefix(clear_block(img, sb.data_bitmap_block as int), sb, 0),
{
    let bb = sb.data_bitmap_block as int;
    let z = Seq::new(4096, |k: int| 0u8);
    let img1 = clear_block(img, bb);
    lemma_overwrite_len(img, bb * 4096, z);
    assert(img1.subrange(bb * 4096, bb * 4096 + 4096) =~= z);
    assert(data_bitmap(img1, sb) == z);
    assert forall|i: int| 0 <= i < bit_capacity(z) implies !#[trigger] bit_is_set(z, i) by {
        let m = crate::bitmap::bit_mask(i % 8);
        assert(z[i / 8] == 0u8);
        assert((0u8 & m) == 0u8) by (bit_vector);
    }
}

/// After the rewrite pass of defragmentation goes through, the data bitmap
/// marks one run of blocks from the start of the data area, and every inode
/// the pass carried (the files with contents and the directories with a
/// block, of the inodes that the inode bitmap marks) has blocks that follow
/// one another within that run, so that the bitmap marks them. This holds
/// when the data area lies after the data bitmap, which the image holds, and
/// the carried inodes' slots lie apart from the data bitmap and before the
/// data area.
pub proof fn lemma_relayout_packs(s: FsView, items: Seq<(u64, Inode, Seq<u8>)>, img_end: Seq<u8>) -> (c: int)
    requires
        data_area_apart(s.sb),
        block_of(s.image, s.sb.data_bitmap_block as int) is Some,
        relayout_plan(s) == Ok::<Seq<(u64, Inode, Seq<u8>)>, DiskManagerError>(items),
        forall|j: int| 0 <= j < items.len() ==> slot_placed(s.sb, #[trigger] items[j].0),
        rewrites(
            s.sb,
            s.key,
            clear_block(s.image, s.sb.data_bitmap_block as int),
            items,
            0,
            img_end,
            Ok::<(), DiskManagerError>(()),
        ),
    ensures
        0 <= c,
        bitmap_prefix(img_end, s.sb, c),
        forall|j: int|
            0 <= j < items.len() ==> packed(
                img_end,
                s.sb,
                #[trigger] items[j].0,
                s.sb.data_block_start as int,
                s.sb.data_block_start + c,
            ),
{
    let sb = s.sb;
    let used = block_of(s.image, sb.inode_bitmap_block as int)->0;
    lemma_live_files_ordered(s, used, sb.inode_count as nat);
    lemma_cleared_prefix(s.image, sb);
    assert(items == live_files(s, used, sb.inode_count as nat)->Ok_0);
    assert(items_placed(sb, items, 0));
    lemma_rewrites_pack(sb, s.key, clear_block(s.image, sb.data_bitmap_block as int), items, 0, 0, img_end)
}

/// What the pass carries of an inode, as image `s` gives it: the inode, and
/// a file's contents or the bytes of a directory's block.
pub open spec fn carried_from(s: FsView, t: (u64, Inode, Seq<u8>)) -> bool {
    &&& read_inode_at(s.image, s.sb, t.0 as int) == Ok::<Inode, DiskManagerError>(t.1)
    &&& t.1.mode == FileType::File ==> read_data_spec(s, t.0) == Ok::<Seq<u8>, DiskManagerError>(t.2)
    &&& t.1.mode == FileType::Directory ==> t.1.blocks[0] != 0 && block_of(s.image, t.1.blocks[0] as int) == Some(t.2)
}

/// Each inode the pass carries is as the image gives it.
proof fn lemma_live_files_carried(s: FsView, used: Seq<u8>, n: nat)
    requires
        live_files(s, used, n) is Ok,
        n <= u64::MAX,
    ensures
        forall|j: int| 0 <= j < live_files(s, used, n)->Ok_0.len() ==> carried_from(s, #[trigger] live_files(s, used, n)->Ok_0[j]),
    decreases n,
{
    if n > 0 {
        lemma_live_files_carried(s, used, (n - 1) as nat);
        let prev = live_files(s, used, (n - 1) as nat)->Ok_0;
        let cur = live_files(s, used, n)->Ok_0;
        if bit_is_set(used, n - 1) {
            if let Ok(i) = read_inode_at(s.image, s.sb, n - 1) {
                let id = (n - 1) as u64;
                assert(id as int == n - 1);
                if i.mode == FileType::File && i.size > 0 {
                    if let Ok(d) = read_data_spec(s, id) {
                        assert(cur == prev.push((id, i, d)));
                        assert(carried_from(s, (id, i, d)));
                    }
                } else if i.mode == FileType::Directory && i.blocks[0] != 0 {
                    if let Some(bytes) = block_of(s.image, i.blocks[0] as int) {
                        assert(cur == prev.push((id, i, bytes)));
                        assert(carried_from(s, (id, i, bytes)));
                    }
                }
            }
        }
        assert forall|j: int| 0 <= j < cur.len() implies carried_from(s, #[trigger] cur[j]) by {
            if j < prev.len() {
                assert(cur[j] == prev[j]);
            }
        }
    }
}

/// Inode `id` keeps, from image `s` to `img_end`, its mode; its size, when it
/// is a directory or a file that read back as many bytes as its size says;
/// such a file's contents, when the blocks it then has lie in the image; and,
/// for a directory whose block then lies in the image, what looking up any
/// name in it finds.
pub open spec fn keeps_inode(s: FsView, img_end: Seq<u8>, id: u64) -> bool {
    read_inode_at(img_end, s.sb, id as int) matches Ok(n) && read_inode_at(s.image, s.sb, id as int) matches Ok(o)
        && {
        let whole = read_data_spec(s, id) matches Ok(d) && d.len() == o.size;
        &&& n.mode == o.mode
        &&& o.mode == FileType::Directory || whole ==> n.size == o.size
        &&& o.mode == FileType::File && whole && (forall|k: int|
            0 <= k < 12 && n.blocks@[k] != 0 ==> (#[trigger] block_of(img_end, n.blocks@[k] as int)) is Some)
            ==> read_data_spec(FsView { image: img_end, ..s }, id) == read_data_spec(s, id)
        &&& o.mode == FileType::Directory && block_of(img_end, n.blocks[0] as int) is Some ==> forall|name: Seq<char>|
            #[trigger] dir_lookup(img_end, s.sb, id, name) == dir_lookup(s.image, s.sb, id, name)
    }
}

/// After the rewrite pass of defragmentation goes through, every inode it
/// carried (the files with contents and the directories with a block, of the
/// inodes that the inode bitmap marks) reads back with the mode it had; a
/// directory, and a file that read back as many bytes as its size says, keep
/// their size; such a file reads back the same contents, and looking up any
/// name in a directory finds what it found before. This holds under the
/// conditions of `lemma_relayout_packs`, and where the blocks that the inode
/// then has lie in the image (a write to a block past the image's end is
/// skipped, and its bytes are lost).
pub proof fn lemma_relayout_keeps(s: FsView, items: Seq<(u64, Inode, Seq<u8>)>, img_end: Seq<u8>)
    requires
        data_area_apart(s.sb),
        block_of(s.image, s.sb.data_bitmap_block as int) is Some,
        relayout_plan(s) == Ok::<Seq<(u64, Inode, Seq<u8>)>, DiskManagerError>(items),
        forall|j: int| 0 <= j < items.len() ==> slot_placed(s.sb, #[trigger] items[j].0),
        rewrites(
            s.sb,
            s.key,
            clear_block(s.image, s.sb.data_bitmap_block as int),
            items,
            0,
            img_end,
            Ok::<(), DiskManagerError>(()),
        ),
    ensures
        forall|j: int| 0 <= j < items.len() ==> keeps_inode(s, img_end, #[trigger] items[j].0),
{
    let sb = s.sb;
    let used = block_of(s.image, sb.inode_bitmap_block as int)->0;
    lemma_live_files_ordered(s, used, sb.inode_count as nat);
    lemma_live_files_carried(s, used, sb.inode_count as nat);
    lemma_cleared_prefix(s.image, sb);
    assert(items == live_files(s, used, sb.inode_count as nat)->Ok_0);
    assert(items_placed(sb, items, 0));
    let img0 = clear_block(s.image, sb.data_bitmap_block as int);
    lemma_rewrites_pack(sb, s.key, img0, items, 0, 0, img_end);
    assert forall|j: int| 0 <= j < items.len() implies keeps_inode(s, img_end, #[trigger] items[j].0) by {
        let t = items[j];
        assert(carried_from(s, t));
        assert(relaid(img_end, sb, s.key, t));
        let o = t.1;
        let n = read_inode_at(img_end, sb, t.0 as int)->Ok_0;
        if o.mode == FileType::Directory {
            assert(t.2.len() == 4096);
            if block_of(img_end, n.blocks[0] as int) is Some {
                assert(block_of(img_end, n.blocks[0] as int) == block_of(s.image, o.blocks[0] as int));
                assert forall|name: Seq<char>| #[trigger] dir_lookup(img_end, sb, t.0, name) == dir_lookup(s.image, sb, t.0, name) by {}
            }
        }
        assert(FsView { image: img_end, sb, key: s.key } == FsView { image: img_end, ..s });
    }
}

} // verus!
