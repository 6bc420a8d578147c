//! Little-endian fields inside byte records, and byte ranges inside the image.
use vstd::bytes::{
    lemma_auto_spec_u32_to_from_le_bytes, lemma_auto_spec_u64_to_from_le_bytes,
    spec_u32_from_le_bytes, spec_u32_to_le_bytes, spec_u64_from_le_bytes, spec_u64_to_le_bytes,
    u32_from_le_bytes, u32_to_le_bytes, u64_from_le_bytes, u64_to_le_bytes,
};
use vstd::prelude::*;

verus! {

pub open spec fn le16(x: u16) -> Seq<u8> {
    seq![(x & 0xff) as u8, (x >> 8) as u8]
}

pub open spec fn le32(x: u32) -> Seq<u8> {
    spec_u32_to_le_bytes(x)
}

pub open spec fn le64(x: u64) -> Seq<u8> {
    spec_u64_to_le_bytes(x)
}

/// The little-endian `u16` stored at `off`.
pub open spec fn u16_at(b: Seq<u8>, off: int) -> u16 {
    (b[off] as u16) | ((b[off + 1] as u16) << 8)
}

/// The little-endian `u32` stored at `off`.
pub open spec fn u32_at(b: Seq<u8>, off: int) -> u32 {
    spec_u32_from_le_bytes(b.subrange(off, off + 4))
}

/// The little-endian `u64` stored at `off`.
pub open spec fn u64_at(b: Seq<u8>, off: int) -> u64 {
    spec_u64_from_le_bytes(b.subrange(off, off + 8))
}

/// A sequence of words, each as 8 little-endian bytes, one after the other.
pub open spec fn words_le(ws: Seq<u64>) -> Seq<u8>
    decreases ws.len(),
{
    if ws.len() == 0 {
        Seq::empty()
    } else {
        words_le(ws.drop_last()) + le64(ws.last())
    }
}

/// `b` with the bytes from `off` on replaced by `src`; its length is kept.
pub open spec fn overwrite(b: Seq<u8>, off: int, src: Seq<u8>) -> Seq<u8> {
    b.subrange(0, off) + src + b.subrange(off + src.len(), b.len() as int)
}

/// The encodings have fixed lengths and decode back to the value.
pub proof fn lemma_le_lengths()
    ensures
        forall|x: u16| #[trigger] le16(x).len() == 2,
        forall|x: u32| #[trigger] le32(x).len() == 4 && spec_u32_from_le_bytes(le32(x)) == x,
        forall|x: u64| #[trigger] le64(x).len() == 8 && spec_u64_from_le_bytes(le64(x)) == x,
{
    lemma_auto_spec_u32_to_from_le_bytes();
    lemma_auto_spec_u64_to_from_le_bytes();
}

/// Equal stored words come from equal bytes.
pub proof fn lemma_u64_at_bytes(b: Seq<u8>, off: int)
    requires
        0 <= off,
        off + 8 <= b.len(),
    ensures
        le64(u64_at(b, off)) == b.subrange(off, off + 8),
{
    lemma_auto_spec_u64_to_from_le_bytes();
}

pub proof fn lemma_u32_at_bytes(b: Seq<u8>, off: int)
    requires
        0 <= off,
        off + 4 <= b.len(),
    ensures
        le32(u32_at(b, off)) == b.subrange(off, off + 4),
{
    lemma_auto_spec_u32_to_from_le_bytes();
}

pub proof fn lemma_u16_at_bytes(b: Seq<u8>, off: int)
    requires
        0 <= off,
        off + 2 <= b.len(),
    ensures
        le16(u16_at(b, off)) == b.subrange(off, off + 2),
{
    let lo = b[off];
    let hi = b[off + 1];
    assert((((lo as u16) | ((hi as u16) << 8)) & 0xff) as u8 == lo && (((lo as u16) | ((hi as u16)
        << 8)) >> 8) as u8 == hi) by (bit_vector);
    assert(le16(u16_at(b, off)) =~= b.subrange(off, off + 2));
}

/// A word placed at `off` reads back from `off`.
pub proof fn lemma_u64_at_placed(b: Seq<u8>, off: int, x: u64)
    requires
        0 <= off,
        off + 8 <= b.len(),
        b.subrange(off, off + 8) == le64(x),
    ensures
        u64_at(b, off) == x,
{
    lemma_auto_spec_u64_to_from_le_bytes();
}

pub proof fn lemma_u32_at_placed(b: Seq<u8>, off: int, x: u32)
    requires
        0 <= off,
        off + 4 <= b.len(),
        b.subrange(off, off + 4) == le32(x),
    ensures
        u32_at(b, off) == x,
{
    lemma_auto_spec_u32_to_from_le_bytes();
    assert(le32(x).len() == 4);
}

pub proof fn lemma_u16_at_placed(b: Seq<u8>, off: int, x: u16)
    requires
        0 <= off,
        off + 2 <= b.len(),
        b.subrange(off, off + 2) == le16(x),
    ensures
        u16_at(b, off) == x,
{
    assert(b[off] == b.subrange(off, off + 2)[0]);
    assert(b[off + 1] == b.subrange(off, off + 2)[1]);
    assert((((x & 0xff) as u8) as u16) | ((((x >> 8) as u8) as u16) << 8) == x) by (bit_vector);
}

/// Each word of `ws` sits at its own 8-byte slot of `words_le(ws)`.
pub proof fn lemma_words_le(ws: Seq<u64>)
    ensures
        words_le(ws).len() == 8 * ws.len(),
        forall|k: int|
            0 <= k < ws.len() ==> #[trigger] words_le(ws).subrange(8 * k, 8 * k + 8) == le64(ws[k]),
    decreases ws.len(),
{
    lemma_le_lengths();
    if ws.len() > 0 {
        let init = ws.drop_last();
        lemma_words_le(init);
        let w = words_le(ws);
        assert(w == words_le(init) + le64(ws.last()));
        assert forall|k: int| 0 <= k < ws.len() implies #[trigger] words_le(ws).subrange(
            8 * k,
            8 * k + 8,
        ) == le64(ws[k]) by {
            if k < ws.len() - 1 {
                assert(words_le(init).subrange(8 * k, 8 * k + 8) == le64(init[k]));
                assert(w.subrange(8 * k, 8 * k + 8) =~= words_le(init).subrange(8 * k, 8 * k + 8));
            } else {
                assert(w.subrange(8 * k, 8 * k + 8) =~= le64(ws.last()));
            }
        }
    }
}

/// Reads the little-endian `u64` at `off`.
pub fn read_u64(b: &[u8], off: usize) -> (r: u64)
    requires
        off + 8 <= b@.len(),
    ensures
        r == u64_at(b@, off as int),
{
    let _n = b.len();
    u64_from_le_bytes(&b[off..off + 8])
}

/// Reads the little-endian `u32` at `off`.
pub fn read_u32(b: &[u8], off: usize) -> (r: u32)
    requires
        off + 4 <= b@.len(),
    ensures
        r == u32_at(b@, off as int),
{
    let _n = b.len();
    u32_from_le_bytes(&b[off..off + 4])
}

/// Reads the little-endian `u16` at `off`.
pub fn read_u16(b: &[u8], off: usize) -> (r: u16)
    requires
        off + 2 <= b@.len(),
    ensures
        r == u16_at(b@, off as int),
{
    let _n = b.len();
    (b[off] as u16) | ((b[off + 1] as u16) << 8)
}

/// Appends `x` as 8 little-endian bytes.
pub fn push_u64(v: &mut Vec<u8>, x: u64)
    ensures
        final(v)@ == old(v)@ + le64(x),
{
    let mut t = u64_to_le_bytes(x);
    v.append(&mut t);
}

/// Appends `x` as 4 little-endian bytes.
pub fn push_u32(v: &mut Vec<u8>, x: u32)
    ensures
        final(v)@ == old(v)@ + le32(x),
{
    let mut t = u32_to_le_bytes(x);
    v.append(&mut t);
}

/// Appends `x` as 2 little-endian bytes.
pub fn push_u16(v: &mut Vec<u8>, x: u16)
    ensures
        final(v)@ == old(v)@ + le16(x),
{
    v.push((x & 0xff) as u8);
    v.push((x >> 8) as u8);
}

/// Appends every byte of `src`.
pub fn push_all(v: &mut Vec<u8>, src: &[u8])
    ensures
        final(v)@ == old(v)@ + src@,
{
    v.extend_from_slice(src);
}

} // verus!
